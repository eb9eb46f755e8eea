use rsdirstat::frame::{encode_layout, encode_scan_start, ClientMessage, WireRect};
use rsdirstat::tree::BreadcrumbEntry;

#[test]
fn scan_start_frame_carries_length_and_bytes() {
    assert_eq!(encode_scan_start("/tmp"), vec![1, 4, 0, b'/', b't', b'm', b'p']);
    assert_eq!(encode_scan_start("日"), vec![1, 3, 0, 0xE6, 0x97, 0xA5]);
}

#[test]
fn layout_frame_with_nothing_in_it() {
    let frame = encode_layout(0x0102, 3, true, &[], &[]);
    assert_eq!(
        frame,
        vec![2, 0x02, 0x01, 0, 0, 0, 0, 0, 0, 3, 0, 0, 0, 1, 0, 0, 0, 0, 0, 0]
    );
}

#[test]
fn layout_frame_lists_crumbs_and_rects() {
    let crumbs = vec![BreadcrumbEntry { id: 7, name: "ab".into() }];
    let rects = vec![WireRect {
        id: -1,
        parent_id: 2,
        x: 1,
        y: 2,
        w: 3,
        h: 4,
        name: "z".into(),
        hue: 0x0102,
        size: 9,
        depth: 5,
        is_container: true,
        header_height: 6,
        is_files: false,
        is_file: true,
        mtime: 8,
    }];
    let frame = encode_layout(1, 2, false, &crumbs, &rects);
    let mut expected: Vec<u8> = vec![2];
    expected.extend_from_slice(&1u64.to_le_bytes());
    expected.extend_from_slice(&2u32.to_le_bytes());
    expected.push(0);
    expected.extend_from_slice(&1u16.to_le_bytes());
    expected.extend_from_slice(&7u64.to_le_bytes());
    expected.extend_from_slice(&2u16.to_le_bytes());
    expected.extend_from_slice(b"ab");
    expected.extend_from_slice(&1u32.to_le_bytes());
    expected.extend_from_slice(&(-1i64).to_le_bytes());
    expected.extend_from_slice(&2u64.to_le_bytes());
    for v in [1u32, 2, 3, 4] {
        expected.extend_from_slice(&v.to_le_bytes());
    }
    expected.extend_from_slice(&0x0102u16.to_le_bytes());
    expected.extend_from_slice(&9u64.to_le_bytes());
    expected.push(5);
    expected.push(0b101);
    expected.extend_from_slice(&6u32.to_le_bytes());
    expected.extend_from_slice(&8i64.to_le_bytes());
    expected.extend_from_slice(&1u16.to_le_bytes());
    expected.extend_from_slice(b"z");
    assert_eq!(frame, expected);
}

#[test]
fn decode_viewport_keeps_float_bits() {
    let mut data = vec![1u8];
    data.extend_from_slice(&800.0f32.to_le_bytes());
    data.extend_from_slice(&600.0f32.to_le_bytes());
    match ClientMessage::decode(&data) {
        Some(ClientMessage::Viewport { width_bits, height_bits }) => {
            assert_eq!(f32::from_bits(width_bits), 800.0);
            assert_eq!(f32::from_bits(height_bits), 600.0);
        }
        _ => panic!("expected a viewport"),
    }
}

#[test]
fn decode_navigate_and_reveal() {
    let mut data = vec![2u8];
    data.extend_from_slice(&42u64.to_le_bytes());
    assert!(matches!(ClientMessage::decode(&data), Some(ClientMessage::Navigate { id: 42 })));
    data[0] = 3;
    assert!(matches!(ClientMessage::decode(&data), Some(ClientMessage::RevealDir { id: 42 })));
    data[0] = 4;
    data.extend_from_slice(&3u16.to_le_bytes());
    data.extend_from_slice(b"a.b");
    match ClientMessage::decode(&data) {
        Some(ClientMessage::RevealFile { dir_id, name }) => {
            assert_eq!(dir_id, 42);
            assert_eq!(name, "a.b");
        }
        _ => panic!("expected a reveal-file request"),
    }
}

#[test]
fn decode_rejects_short_or_unknown_frames() {
    assert!(ClientMessage::decode(&[]).is_none());
    assert!(ClientMessage::decode(&[1, 0, 0]).is_none());
    assert!(ClientMessage::decode(&[12]).is_none());
    assert!(ClientMessage::decode(&[4, 0, 0, 0, 0, 0, 0, 0, 0, 5, 0, b'a']).is_none());
    assert!(ClientMessage::decode(&[10, 2, 0, 0xff, 0xfe]).is_none());
}

#[test]
fn decode_depth_is_clamped() {
    assert!(matches!(ClientMessage::decode(&[6, 0]), Some(ClientMessage::SetDepth { depth: 1 })));
    assert!(matches!(ClientMessage::decode(&[6, 5]), Some(ClientMessage::SetDepth { depth: 5 })));
    assert!(matches!(ClientMessage::decode(&[6, 200]), Some(ClientMessage::SetDepth { depth: 10 })));
    assert!(matches!(ClientMessage::decode(&[7, 3]), Some(ClientMessage::ColorMode { mode: 3 })));
    assert!(matches!(ClientMessage::decode(&[5]), Some(ClientMessage::Rescan)));
    assert!(matches!(ClientMessage::decode(&[11]), Some(ClientMessage::ClearFilter)));
}

#[test]
fn decode_extension_list_skips_bad_and_stops_at_the_end() {
    let data = [8u8, 4, 2, b'r', b's', 1, 0xff, 4, b't', b'o', b'm', b'l', 9, b'x'];
    match ClientMessage::decode(&data) {
        Some(ClientMessage::FilterExt { extensions }) => {
            assert_eq!(extensions, vec!["rs".to_string(), "toml".to_string()]);
        }
        _ => panic!("expected an extension filter"),
    }
}

#[test]
fn decode_size_and_lowercased_name() {
    let mut data = vec![9u8];
    data.extend_from_slice(&1024u64.to_le_bytes());
    data.extend_from_slice(&u64::MAX.to_le_bytes());
    assert!(matches!(
        ClientMessage::decode(&data),
        Some(ClientMessage::FilterSize { min: 1024, max: u64::MAX })
    ));
    let mut data = vec![10u8];
    data.extend_from_slice(&10u16.to_le_bytes());
    data.extend_from_slice(b"FooBar.TXT");
    match ClientMessage::decode(&data) {
        Some(ClientMessage::FilterName { pattern }) => assert_eq!(pattern, "foobar.txt"),
        _ => panic!("expected a name filter"),
    }
}
