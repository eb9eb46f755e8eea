use rsdirstat::platform::filetime_to_unix;
use rsdirstat::windows::{entry_kind, read_dir_info, EntryKind, DIR_INFO_SIZE};

fn record(next: u32, write_time: i64, size: i64, attrs: u32, id: i64, name: &str) -> Vec<u8> {
    let units: Vec<u16> = name.encode_utf16().collect();
    let mut r = vec![0u8; DIR_INFO_SIZE];
    r[0..4].copy_from_slice(&next.to_le_bytes());
    r[24..32].copy_from_slice(&write_time.to_le_bytes());
    r[40..48].copy_from_slice(&size.to_le_bytes());
    r[56..60].copy_from_slice(&attrs.to_le_bytes());
    r[60..64].copy_from_slice(&((units.len() * 2) as u32).to_le_bytes());
    r[96..104].copy_from_slice(&id.to_le_bytes());
    r.truncate(104);
    for u in units {
        r.extend_from_slice(&u.to_le_bytes());
    }
    while r.len() < DIR_INFO_SIZE {
        r.push(0);
    }
    r
}

#[test]
fn listing_record_is_read() {
    let buf = record(0, 116_444_736_000_000_000, 4096, 32, 99, "notes.txt");
    let info = read_dir_info(&buf, 0).expect("record should fit");
    assert_eq!(info.next_entry_offset, 0);
    assert_eq!(filetime_to_unix(info.last_write_time), 0);
    assert_eq!(info.end_of_file, 4096);
    assert_eq!(info.file_id, 99);
    assert_eq!(info.name, "notes.txt");
    assert!(matches!(entry_kind(info.file_attributes), EntryKind::File));
}

#[test]
fn second_record_and_short_buffers() {
    let mut buf = record(112, 0, 0, 16, 1, "dir");
    buf.extend(record(0, 0, 0, 16 | 1024, 2, "link"));
    let first = read_dir_info(&buf, 0).unwrap();
    assert!(matches!(entry_kind(first.file_attributes), EntryKind::Directory));
    let second = read_dir_info(&buf, first.next_entry_offset as usize).unwrap();
    assert_eq!(second.name, "link");
    assert!(matches!(entry_kind(second.file_attributes), EntryKind::Other));
    assert!(read_dir_info(&buf, 200).is_none());
    assert!(read_dir_info(&buf[..100], 0).is_none());
}

#[test]
fn name_is_held_to_the_buffer() {
    let mut buf = record(0, 0, 0, 0, 1, "ab");
    buf[60..64].copy_from_slice(&1000u32.to_le_bytes());
    let info = read_dir_info(&buf, 0).unwrap();
    assert_eq!(info.name.chars().count(), 4);
    assert!(info.name.starts_with("ab"));
}
