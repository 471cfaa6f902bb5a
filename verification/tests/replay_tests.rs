use dectris_replay::cursor::DumpRecordFile;
use dectris_replay::error::DumpError;
use dectris_replay::message::try_parse;
use dectris_replay::replay::{
    action_repeat, get_str, get_u64, replace_if_present, rewrite_config, write_serializable,
    DImage, DetectorConfig,
};

fn framed(payload: &[u8]) -> Vec<u8> {
    let mut bytes = (payload.len() as i64).to_le_bytes().to_vec();
    bytes.extend_from_slice(payload);
    bytes
}

fn dump_of(payloads: &[Vec<u8>]) -> Vec<u8> {
    let mut bytes = Vec::new();
    for payload in payloads {
        bytes.extend_from_slice(&framed(payload));
    }
    bytes
}

fn records_of(bytes: &[u8]) -> Vec<Vec<u8>> {
    let mut found = Vec::new();
    let mut at = 0;
    while at < bytes.len() {
        let mut prefix = [0u8; 8];
        prefix.copy_from_slice(&bytes[at..at + 8]);
        let len = i64::from_le_bytes(prefix) as usize;
        found.push(bytes[at + 8..at + 8 + len].to_vec());
        at += 8 + len;
    }
    found
}

const HEADER: &[u8] = b"{\"htype\":\"dheader-1.0\",\"series\":7,\"header_detail\":\"basic\"}";

const CONFIG: &[u8] =
    b"{\"ntrigger\":1,\"nimages\":3,\"trigger_mode\":\"ints\",\"x_pixels_in_detector\":4}";

fn image_header(frame: u64) -> Vec<u8> {
    format!("{{\"htype\":\"dimage-1.0\",\"series\":7,\"frame\":{},\"hash\":\"abc{}\"}}", frame, frame)
        .into_bytes()
}

fn image_description(frame: u64) -> Vec<u8> {
    format!("{{\"htype\":\"dimage_d-1.0\",\"shape\":[2,2],\"size\":{}}}", 4 + frame).into_bytes()
}

fn image_payload(frame: u64) -> Vec<u8> {
    vec![0xf0, frame as u8, 0x00, 0xff, 0x7b]
}

fn image_trailer(frame: u64) -> Vec<u8> {
    format!("{{\"htype\":\"dconfig-1.0\",\"start_time\":{},\"stop_time\":9}}", 100 + frame)
        .into_bytes()
}

fn acquisition(images: u64) -> Vec<Vec<u8>> {
    let mut payloads = vec![HEADER.to_vec(), CONFIG.to_vec()];
    for frame in 0..images {
        payloads.push(image_header(frame));
        payloads.push(image_description(frame));
        payloads.push(image_payload(frame));
        payloads.push(image_trailer(frame));
    }
    payloads
}

fn replay_of(payloads: &[Vec<u8>], repetitions: usize) -> Result<Vec<Vec<u8>>, DumpError> {
    let file = DumpRecordFile::new(dump_of(payloads));
    action_repeat(&file, repetitions).map(|bytes| records_of(&bytes))
}

#[test]
fn three_images_twice_gives_six_triggers_and_frames_zero_to_five() {
    let out = replay_of(&acquisition(3), 2).unwrap();
    let config = try_parse(&out[1]).unwrap();
    assert_eq!(get_u64(&config, "ntrigger"), Some(6));
    let frames: Vec<u64> = (0..6)
        .map(|j| get_u64(&try_parse(&out[2 + 4 * j]).unwrap(), "frame").unwrap())
        .collect();
    assert_eq!(frames, vec![0, 1, 2, 3, 4, 5]);
}

#[test]
fn replay_configuration_is_rewritten() {
    for repetitions in [1usize, 2, 5] {
        let out = replay_of(&acquisition(3), repetitions).unwrap();
        let config = try_parse(&out[1]).unwrap();
        assert_eq!(get_u64(&config, "ntrigger"), Some(3 * repetitions as u64));
        assert_eq!(get_u64(&config, "nimages"), Some(1));
        assert_eq!(get_str(&config, "trigger_mode"), Some("exte".to_string()));
        assert_eq!(get_u64(&config, "x_pixels_in_detector"), Some(4));
    }
}

#[test]
fn replay_configuration_bytes() {
    let out = replay_of(&acquisition(3), 2).unwrap();
    assert_eq!(
        String::from_utf8(out[1].clone()).unwrap(),
        "{\"nimages\":1,\"ntrigger\":6,\"trigger_mode\":\"exte\",\"x_pixels_in_detector\":4}"
    );
}

#[test]
fn replay_emits_two_plus_four_per_image_per_repetition() {
    for (images, repetitions) in [(3u64, 2usize), (1, 1), (2, 3), (4, 1), (1, 7)] {
        let out = replay_of(&acquisition(images), repetitions).unwrap();
        assert_eq!(out.len(), 2 + 4 * repetitions * images as usize);
    }
}

#[test]
fn replay_passes_the_header_through_unchanged() {
    let out = replay_of(&acquisition(2), 3).unwrap();
    assert_eq!(out[0], HEADER.to_vec());
}

#[test]
fn replay_output_starts_with_the_header_bytes_as_framed_in_the_source() {
    let source = dump_of(&acquisition(2));
    let file = DumpRecordFile::new(source.clone());
    let out = action_repeat(&file, 1).unwrap();
    assert_eq!(&out[..8 + HEADER.len()], &source[..8 + HEADER.len()]);
}

#[test]
fn replay_passes_the_other_three_records_through_byte_for_byte() {
    let out = replay_of(&acquisition(3), 2).unwrap();
    for j in 0..6u64 {
        let source = j % 3;
        let at = 2 + 4 * j as usize;
        assert_eq!(out[at + 1], image_description(source));
        assert_eq!(out[at + 2], image_payload(source));
        assert_eq!(out[at + 3], image_trailer(source));
    }
}

#[test]
fn replay_renumbers_only_the_frame_of_an_image_header() {
    let out = replay_of(&acquisition(3), 2).unwrap();
    assert_eq!(
        String::from_utf8(out[2 + 4 * 4].clone()).unwrap(),
        "{\"frame\":4,\"hash\":\"abc1\",\"htype\":\"dimage-1.0\",\"series\":7}"
    );
    assert_eq!(
        String::from_utf8(out[2].clone()).unwrap(),
        "{\"frame\":0,\"hash\":\"abc0\",\"htype\":\"dimage-1.0\",\"series\":7}"
    );
}

#[test]
fn replay_frame_indices_are_contiguous_in_emission_order() {
    let out = replay_of(&acquisition(4), 3).unwrap();
    for j in 0..12usize {
        let header = try_parse(&out[2 + 4 * j]).unwrap();
        assert_eq!(get_u64(&header, "frame"), Some(j as u64));
        assert_eq!(get_str(&header, "hash"), Some(format!("abc{}", j % 4)));
    }
}

#[test]
fn replay_ignores_the_recorded_frame_numbers() {
    let mut payloads = acquisition(2);
    payloads[2] = image_header(40);
    payloads[6] = image_header(17);
    let out = replay_of(&payloads, 2).unwrap();
    let frames: Vec<u64> = (0..4)
        .map(|j| get_u64(&try_parse(&out[2 + 4 * j]).unwrap(), "frame").unwrap())
        .collect();
    assert_eq!(frames, vec![0, 1, 2, 3]);
}

#[test]
fn replay_counts_images_by_binary_records_not_by_the_configuration() {
    let mut payloads = acquisition(2);
    payloads[1] = b"{\"nimages\":900,\"ntrigger\":900,\"trigger_mode\":\"inte\"}".to_vec();
    let out = replay_of(&payloads, 3).unwrap();
    assert_eq!(out.len(), 2 + 4 * 3 * 2);
    assert_eq!(get_u64(&try_parse(&out[1]).unwrap(), "ntrigger"), Some(6));
}

#[test]
fn replay_once_keeps_the_structure() {
    let source = acquisition(2);
    let out = replay_of(&source, 1).unwrap();
    assert_eq!(out.len(), source.len());
    assert_eq!(out[0], source[0]);
    for at in [3usize, 4, 5, 7, 8, 9] {
        assert_eq!(out[at], source[at]);
    }
    assert_eq!(get_u64(&try_parse(&out[1]).unwrap(), "ntrigger"), Some(2));
}

#[test]
fn replay_output_is_itself_a_dump_that_replays() {
    let file = DumpRecordFile::new(dump_of(&acquisition(2)));
    let once = action_repeat(&file, 2).unwrap();
    let again = DumpRecordFile::new(once);
    let twice = records_of(&action_repeat(&again, 2).unwrap());
    assert_eq!(twice.len(), 2 + 4 * 2 * 4);
    assert_eq!(get_u64(&try_parse(&twice[1]).unwrap(), "ntrigger"), Some(8));
    assert_eq!(get_u64(&try_parse(&twice[2 + 4 * 7]).unwrap(), "frame"), Some(7));
}

#[test]
fn replay_with_no_repetition_emits_header_and_configuration() {
    let out = replay_of(&acquisition(3), 0).unwrap();
    assert_eq!(out.len(), 2);
    assert_eq!(out[0], HEADER.to_vec());
    assert_eq!(get_u64(&try_parse(&out[1]).unwrap(), "ntrigger"), Some(0));
}

#[test]
fn replay_of_an_acquisition_without_images() {
    let out = replay_of(&acquisition(0), 4).unwrap();
    assert_eq!(out.len(), 2);
    assert_eq!(get_u64(&try_parse(&out[1]).unwrap(), "ntrigger"), Some(0));
    assert_eq!(get_u64(&try_parse(&out[1]).unwrap(), "nimages"), Some(1));
}

#[test]
fn replay_starts_at_the_first_header_and_skips_what_stands_before() {
    let mut payloads = vec![b"{\"htype\":\"dglobal-1.0\"}".to_vec()];
    payloads.extend(acquisition(1));
    let out = replay_of(&payloads, 2).unwrap();
    assert_eq!(out.len(), 2 + 4 * 2);
    assert_eq!(out[0], HEADER.to_vec());
    assert_eq!(out[3], image_description(0));
    assert_eq!(out[7], image_description(0));
}

#[test]
fn replay_without_a_header_is_missing_header() {
    let payloads = acquisition(2)[1..].to_vec();
    assert_eq!(replay_of(&payloads, 2), Err(DumpError::MissingHeader));
    assert_eq!(replay_of(&[], 1), Err(DumpError::MissingHeader));
}

#[test]
fn replay_without_a_configuration_is_a_framing_error() {
    assert_eq!(replay_of(&[HEADER.to_vec()], 1), Err(DumpError::Framing));
}

#[test]
fn replay_with_a_malformed_configuration_is_a_parse_error() {
    for bad in [
        &b"\x00\x01\x02"[..],
        b"{\"ntrigger\":1,\"nimages\":3}",
        b"{\"ntrigger\":1,\"trigger_mode\":\"ints\"}",
        b"{\"nimages\":3,\"trigger_mode\":\"ints\"}",
        b"{\"ntrigger\":\"1\",\"nimages\":3,\"trigger_mode\":\"ints\"}",
        b"{\"ntrigger\":1,\"nimages\":-3,\"trigger_mode\":\"ints\"}",
        b"{\"ntrigger\":1,\"nimages\":3,\"trigger_mode\":4}",
        b"{\"ntrigger\":1.5,\"nimages\":3,\"trigger_mode\":\"ints\"}",
        b"[1,3,\"ints\"]",
    ] {
        let mut payloads = acquisition(1);
        payloads[1] = bad.to_vec();
        assert_eq!(replay_of(&payloads, 1), Err(DumpError::JsonParse));
    }
}

#[test]
fn replay_of_a_truncated_quadruple_is_a_framing_error() {
    let whole = acquisition(2);
    assert_eq!(replay_of(&whole[..9], 1), Err(DumpError::Framing));
    assert_eq!(replay_of(&whole[..9], 3), Err(DumpError::Framing));
    assert_eq!(replay_of(&whole[..5], 1), Err(DumpError::Framing));
}

#[test]
fn replay_reads_as_many_quadruples_as_there_are_binary_records() {
    let whole = acquisition(2);
    for keep in [6usize, 7, 8] {
        let out = replay_of(&whole[..keep], 2).unwrap();
        assert_eq!(out.len(), 2 + 4 * 2);
        assert_eq!(get_u64(&try_parse(&out[1]).unwrap(), "ntrigger"), Some(2));
    }
}

#[test]
fn replay_of_more_binary_records_than_quadruples_is_a_framing_error() {
    let mut payloads = acquisition(1);
    payloads.push(vec![0xff, 0xfe]);
    assert_eq!(replay_of(&payloads, 1), Err(DumpError::Framing));
}

#[test]
fn replay_of_a_dump_with_bytes_left_over_is_a_framing_error() {
    let mut bytes = dump_of(&acquisition(1));
    bytes.extend_from_slice(&[1, 2, 3]);
    let file = DumpRecordFile::new(bytes);
    assert_eq!(action_repeat(&file, 1), Err(DumpError::Framing));
}

#[test]
fn replay_with_an_image_header_that_is_not_one_is_a_parse_error() {
    for bad in [
        &b"{\"htype\":\"dimage-1.0\",\"series\":7}"[..],
        b"{\"htype\":\"dimage-1.0\",\"frame\":\"0\"}",
        b"{\"htype\":\"dimage-1.0\",\"frame\":-1}",
        b"[0]",
    ] {
        let mut payloads = acquisition(2);
        payloads[6] = bad.to_vec();
        assert_eq!(replay_of(&payloads, 1), Err(DumpError::JsonParse));
    }
}

#[test]
fn replay_with_a_binary_record_in_header_place_is_a_parse_error() {
    let mut payloads = acquisition(2);
    payloads.swap(2, 4);
    assert_eq!(replay_of(&payloads, 1), Err(DumpError::JsonParse));
}

#[test]
fn replay_with_too_many_frames_to_count() {
    assert_eq!(replay_of(&acquisition(2), usize::MAX), Err(DumpError::FrameCount));
}

#[test]
fn rewrite_config_overwrites_the_three_fields() {
    let mut value = try_parse(
        b"{\"trigger_mode\":\"ints\",\"nimages\":100,\"extra\":{\"k\":[1,2]},\"ntrigger\":2}",
    )
    .unwrap();
    rewrite_config(&mut value, 12);
    assert_eq!(
        serde_json::to_string(&value).unwrap(),
        "{\"extra\":{\"k\":[1,2]},\"nimages\":1,\"ntrigger\":12,\"trigger_mode\":\"exte\"}"
    );
}

#[test]
fn rewrite_config_adds_no_field() {
    let mut value = try_parse(b"{\"nimages\":100,\"other\":true}").unwrap();
    rewrite_config(&mut value, 12);
    assert_eq!(serde_json::to_string(&value).unwrap(), "{\"nimages\":1,\"other\":true}");
    let mut bare = try_parse(b"{\"other\":true}").unwrap();
    rewrite_config(&mut bare, 12);
    assert_eq!(serde_json::to_string(&bare).unwrap(), "{\"other\":true}");
    let mut only_trigger = try_parse(b"{\"ntrigger\":null}").unwrap();
    rewrite_config(&mut only_trigger, u64::MAX);
    assert_eq!(
        serde_json::to_string(&only_trigger).unwrap(),
        "{\"ntrigger\":18446744073709551615}"
    );
}

#[test]
fn rewrite_config_leaves_what_is_no_object_alone() {
    for text in [&b"[1,2]"[..], b"\"nimages\"", b"3", b"null"] {
        let mut value = try_parse(text).unwrap();
        let before = value.clone();
        rewrite_config(&mut value, 5);
        assert_eq!(value, before);
    }
}

#[test]
fn replace_if_present_replaces_or_leaves() {
    let mut value = try_parse(b"{\"a\":1,\"b\":2}").unwrap();
    replace_if_present(&mut value, "a", serde_json::Value::from("x"));
    assert_eq!(serde_json::to_string(&value).unwrap(), "{\"a\":\"x\",\"b\":2}");
    replace_if_present(&mut value, "c", serde_json::Value::from(3u64));
    assert_eq!(serde_json::to_string(&value).unwrap(), "{\"a\":\"x\",\"b\":2}");
}

#[test]
fn get_u64_and_get_str_read_members() {
    let value = try_parse(b"{\"n\":42,\"s\":\"text\",\"neg\":-1,\"big\":18446744073709551615}").unwrap();
    assert_eq!(get_u64(&value, "n"), Some(42));
    assert_eq!(get_u64(&value, "big"), Some(u64::MAX));
    assert_eq!(get_u64(&value, "neg"), None);
    assert_eq!(get_u64(&value, "s"), None);
    assert_eq!(get_u64(&value, "missing"), None);
    assert_eq!(get_str(&value, "s"), Some("text".to_string()));
    assert_eq!(get_str(&value, "n"), None);
    assert_eq!(get_str(&value, "missing"), None);
    assert_eq!(get_u64(&try_parse(b"[42]").unwrap(), "n"), None);
}

#[test]
fn detector_config_from_value() {
    let value = try_parse(CONFIG).unwrap();
    let config = DetectorConfig::from_value(&value).unwrap();
    assert_eq!(config.nimages, 3);
    assert_eq!(config.ntrigger, 1);
    assert_eq!(config.trigger_mode, "ints");
    assert!(DetectorConfig::from_value(&try_parse(b"{\"nimages\":3}").unwrap()).is_none());
    assert!(DetectorConfig::from_value(&try_parse(b"7").unwrap()).is_none());
}

#[test]
fn image_header_from_value() {
    let header = DImage::from_value(&try_parse(&image_header(31)).unwrap()).unwrap();
    assert_eq!(header.frame, 31);
    assert!(DImage::from_value(&try_parse(b"{\"htype\":\"dimage-1.0\"}").unwrap()).is_none());
    assert!(DImage::from_value(&try_parse(b"{\"frame\":\"31\"}").unwrap()).is_none());
}

#[test]
fn write_serializable_frames_the_compact_text() {
    let value = try_parse(b" { \"b\" : [ 1 , 2 ] , \"a\" : \"x\" } ").unwrap();
    let mut out = vec![0xeeu8];
    assert_eq!(write_serializable(&mut out, &value), Ok(()));
    let mut expected = vec![0xeeu8];
    expected.extend_from_slice(&framed(b"{\"a\":\"x\",\"b\":[1,2]}"));
    assert_eq!(out, expected);
}
