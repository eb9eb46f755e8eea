use rsdirstat::macos::{parse_entry, ATTR_CMN_DEVID, ATTR_CMN_FILEID, ATTR_CMN_MODTIME, ATTR_CMN_NAME, ATTR_CMN_OBJTYPE, ATTR_FILE_DATALENGTH, ATTR_FILE_LINKCOUNT, VREG};

fn entry(common: u32, file: u32, fields: &[u8], tail: &[u8]) -> Vec<u8> {
    let mut e = Vec::new();
    e.extend_from_slice(&0u32.to_le_bytes());
    e.extend_from_slice(&common.to_le_bytes());
    e.extend_from_slice(&0u32.to_le_bytes());
    e.extend_from_slice(&0u32.to_le_bytes());
    e.extend_from_slice(&file.to_le_bytes());
    e.extend_from_slice(&0u32.to_le_bytes());
    e.extend_from_slice(fields);
    e.extend_from_slice(tail);
    let len = e.len() as u32;
    e[0..4].copy_from_slice(&len.to_le_bytes());
    e
}

#[test]
fn full_file_entry_is_parsed() {
    let common = ATTR_CMN_NAME | ATTR_CMN_DEVID | ATTR_CMN_OBJTYPE | ATTR_CMN_MODTIME | ATTR_CMN_FILEID;
    let file = ATTR_FILE_LINKCOUNT | ATTR_FILE_DATALENGTH;
    let mut fields = Vec::new();
    // name reference: the name follows all fixed fields (8+4+4+16+8+4+8 = 52 bytes from here)
    fields.extend_from_slice(&52i32.to_le_bytes());
    fields.extend_from_slice(&6u32.to_le_bytes());
    fields.extend_from_slice(&(-3i32).to_le_bytes());
    fields.extend_from_slice(&VREG.to_le_bytes());
    fields.extend_from_slice(&1_700_000_000i64.to_le_bytes());
    fields.extend_from_slice(&0i64.to_le_bytes());
    fields.extend_from_slice(&77u64.to_le_bytes());
    fields.extend_from_slice(&2u32.to_le_bytes());
    fields.extend_from_slice(&4096u64.to_le_bytes());
    let e = entry(common, file, &fields, b"a.txt\0");
    let p = parse_entry(&e).expect("entry should parse");
    assert_eq!(p.name, "a.txt");
    assert_eq!(p.dev_id, -3);
    assert_eq!(p.obj_type, VREG);
    assert_eq!(p.mtime, 1_700_000_000);
    assert_eq!(p.file_id, 77);
    assert_eq!(p.nlink, 2);
    assert_eq!(p.file_size, 4096);
}

#[test]
fn missing_attributes_read_as_zero() {
    let mut fields = Vec::new();
    fields.extend_from_slice(&9u64.to_le_bytes());
    let e = entry(ATTR_CMN_FILEID, 0, &fields, &[]);
    let p = parse_entry(&e).expect("entry should parse");
    assert_eq!(p.name, "");
    assert_eq!((p.dev_id, p.obj_type, p.mtime, p.file_id, p.nlink, p.file_size), (0, 0, 0, 9, 0, 0));
}

#[test]
fn truncated_or_bad_entries_are_refused() {
    assert!(parse_entry(&[0u8; 10]).is_none());
    let e = entry(ATTR_CMN_FILEID, 0, &[1, 2, 3], &[]);
    assert!(parse_entry(&e).is_none());
    let mut fields = Vec::new();
    fields.extend_from_slice(&8i32.to_le_bytes());
    fields.extend_from_slice(&2u32.to_le_bytes());
    let e = entry(ATTR_CMN_NAME, 0, &fields, b"ab");
    assert!(parse_entry(&e).is_none());
    let mut fields = Vec::new();
    fields.extend_from_slice(&8i32.to_le_bytes());
    fields.extend_from_slice(&2u32.to_le_bytes());
    let e = entry(ATTR_CMN_NAME, 0, &fields, &[0xff, 0]);
    assert!(parse_entry(&e).is_none());
    let mut fields = Vec::new();
    fields.extend_from_slice(&(-1000i32).to_le_bytes());
    fields.extend_from_slice(&2u32.to_le_bytes());
    let e = entry(ATTR_CMN_NAME, 0, &fields, b"a\0");
    assert!(parse_entry(&e).is_none());
}
