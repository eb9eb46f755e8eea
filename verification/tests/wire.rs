use rsdirstat::wire::{frame_payload, pack, unpack, ClientMessage};

#[test]
fn small_payload_is_sent_raw() {
    let frame = pack(vec![1, 2, 3]);
    assert_eq!(frame, vec![0, 1, 2, 3]);
    assert_eq!(unpack(&frame), Some(vec![1, 2, 3]));
}

#[test]
fn repetitive_payload_is_deflated_and_round_trips() {
    let payload: Vec<u8> = (0..10_000u32).map(|i| (i % 7) as u8).collect();
    let frame = pack(payload.clone());
    assert_eq!(frame[0], 1);
    assert!(frame.len() < payload.len());
    assert_eq!(unpack(&frame), Some(payload));
}

#[test]
fn frame_payload_keeps_the_shorter_form() {
    assert_eq!(frame_payload(vec![1, 2, 3], vec![9]), vec![1, 9]);
    assert_eq!(frame_payload(vec![1, 2], vec![9, 9]), vec![0, 1, 2]);
}

#[test]
fn decode_empty_or_garbage_frames() {
    assert!(unpack(&[]).is_none());
    assert!(unpack(&[2, 0, 0]).is_none());
    assert!(unpack(&[1, 0xff, 0xff, 0xff]).is_none());
    assert_eq!(unpack(&[0]), Some(vec![]));
}

fn normalized(mut m: ClientMessage) -> ClientMessage {
    m.normalize();
    m
}

#[test]
fn set_depth_is_clamped() {
    assert!(matches!(normalized(ClientMessage::SetDepth { depth: 5 }), ClientMessage::SetDepth { depth: 5 }));
    assert!(matches!(normalized(ClientMessage::SetDepth { depth: 0 }), ClientMessage::SetDepth { depth: 1 }));
    assert!(matches!(normalized(ClientMessage::SetDepth { depth: 255 }), ClientMessage::SetDepth { depth: 10 }));
}

#[test]
fn color_mode_clamps_unknown_to_type() {
    assert!(matches!(normalized(ClientMessage::ColorMode { mode: 1 }), ClientMessage::ColorMode { mode: 1 }));
    assert!(matches!(normalized(ClientMessage::ColorMode { mode: 7 }), ClientMessage::ColorMode { mode: 0 }));
}

#[test]
fn filter_name_is_lowercased() {
    match normalized(ClientMessage::FilterName { pattern: "FooBar.TXT".into() }) {
        ClientMessage::FilterName { pattern } => assert_eq!(pattern, "foobar.txt"),
        _ => panic!("expected a name filter"),
    }
}

#[test]
fn normalize_leaves_other_requests_alone() {
    assert!(matches!(normalized(ClientMessage::Navigate { id: 42 }), ClientMessage::Navigate { id: 42 }));
    assert!(matches!(normalized(ClientMessage::Rescan), ClientMessage::Rescan));
}

#[test]
fn pack_deflates_at_level_one() {
    let payload: Vec<u8> = (0..4096u32).map(|i| (i % 13) as u8).collect();
    let mut expected = vec![1u8];
    expected.extend(miniz_oxide::deflate::compress_to_vec(&payload, 1));
    assert_eq!(pack(payload), expected);
}

#[test]
fn inflating_with_a_limit_of_exactly_the_length_succeeds() {
    let payload = b"hello hello hello hello".to_vec();
    let compressed = miniz_oxide::deflate::compress_to_vec(&payload, 1);
    let back = miniz_oxide::inflate::decompress_to_vec_with_limit(&compressed, payload.len()).unwrap();
    assert_eq!(back, payload);
    assert!(miniz_oxide::inflate::decompress_to_vec_with_limit(&compressed, payload.len() - 1).is_err());
    let empty = miniz_oxide::deflate::compress_to_vec(&[], 1);
    assert_eq!(miniz_oxide::inflate::decompress_to_vec_with_limit(&empty, 0).unwrap(), Vec::<u8>::new());
}

#[test]
fn payload_of_exactly_the_inflate_limit_round_trips() {
    let payload: Vec<u8> = vec![7u8; 256 * 1024 * 1024];
    let frame = pack(payload.clone());
    assert_eq!(frame[0], 1);
    assert_eq!(unpack(&frame), Some(payload));
}
