use rsdirstat::linux::{
    child_path, descends_into, link_counted, needs_dedup, next_dirent, node_id, parse_mount_line,
    volume_name, DirTally, DirentStep,
};

fn record(ino: u64, d_type: u8, name: &[u8], reclen: u16) -> Vec<u8> {
    let mut r = Vec::new();
    r.extend_from_slice(&ino.to_le_bytes());
    r.extend_from_slice(&0u64.to_le_bytes());
    r.extend_from_slice(&reclen.to_le_bytes());
    r.push(d_type);
    r.extend_from_slice(name);
    while r.len() < reclen as usize {
        r.push(0);
    }
    r
}

#[test]
fn dirent_records_are_read_in_turn() {
    let mut buf = record(11, 4, b"src", 24);
    buf.extend(record(12, 8, b".", 24));
    buf.extend(record(13, 8, b"main.rs", 32));
    let n = buf.len();
    match next_dirent(&buf, 0, n) {
        DirentStep::Entry { ino, d_type, name, next } => {
            assert_eq!((ino, d_type, name.as_str(), next), (11, 4, "src", 24));
        }
        _ => panic!("expected an entry"),
    }
    assert!(matches!(next_dirent(&buf, 24, n), DirentStep::Skip { next: 48 }));
    match next_dirent(&buf, 48, n) {
        DirentStep::Entry { ino, name, next, .. } => {
            assert_eq!((ino, name.as_str(), next), (13, "main.rs", 80));
        }
        _ => panic!("expected an entry"),
    }
}

#[test]
fn dirent_walk_stops_on_short_or_bad_records() {
    let buf = record(1, 8, b"a", 24);
    assert!(matches!(next_dirent(&buf, 0, 19), DirentStep::End));
    let mut zero = record(1, 8, b"a", 24);
    zero[16] = 0;
    zero[17] = 0;
    assert!(matches!(next_dirent(&zero, 0, 24), DirentStep::End));
    let long = record(1, 8, b"a", 24);
    assert!(matches!(next_dirent(&long, 0, 23), DirentStep::End));
    let mut no_nul = record(1, 8, b"abcde", 24);
    no_nul.truncate(24);
    assert!(matches!(next_dirent(&no_nul, 0, 24), DirentStep::Skip { next: 24 }));
    let bad = record(1, 8, &[0xff, 0xfe], 24);
    assert!(matches!(next_dirent(&bad, 0, 24), DirentStep::Skip { next: 24 }));
}

#[test]
fn mount_lines_of_devices_are_kept() {
    let m = parse_mount_line("/dev/sda1 / ext4 rw,relatime 0 0").unwrap();
    assert_eq!((m.device.as_str(), m.mount_point.as_str(), m.fs_type.as_str()), ("/dev/sda1", "/", "ext4"));
    let m = parse_mount_line("  /dev/sdb1\t/mnt/data").unwrap();
    assert_eq!((m.mount_point.as_str(), m.fs_type.as_str()), ("/mnt/data", ""));
}

#[test]
fn pseudo_and_snap_mounts_are_dropped() {
    assert!(parse_mount_line("proc /proc proc rw 0 0").is_none());
    assert!(parse_mount_line("/dev/loop0 /snap/core/1 squashfs ro 0 0").is_none());
    assert!(parse_mount_line("/dev/sda1").is_none());
    assert!(parse_mount_line("").is_none());
}

#[test]
fn volume_names() {
    assert_eq!(volume_name("/"), "Root");
    assert_eq!(volume_name("/mnt/data"), "data");
    assert_eq!(volume_name("/mnt/data/"), "data");
    assert_eq!(volume_name("/mnt/.."), "/mnt/..");
}

#[test]
fn node_id_rotates_device_into_high_bits() {
    assert_eq!(node_id(0, 42), 42);
    assert_eq!(node_id(1, 0), 1u64 << 48);
    assert_eq!(node_id(0x1_0000, 5), 1 ^ 5);
    assert_eq!(node_id(7, 9), 7u64.rotate_left(48) ^ 9);
    assert_ne!(node_id(3, 10), node_id(3, 11));
}

#[test]
fn dir_tally_sums_sizes_and_keeps_latest_time() {
    let mut tally = DirTally::new();
    tally.count_file(100, 50);
    tally.count_file(20, 10);
    tally.count_file(3, 70);
    assert_eq!(tally.total, 123);
    assert_eq!(tally.mtime, 70);
    let mut old = DirTally::new();
    old.count_file(5, -3);
    assert_eq!(old.mtime, 0);
}

#[test]
fn child_path_joins_with_one_slash() {
    assert_eq!(child_path("/home/user", "docs"), "/home/user/docs");
    assert_eq!(child_path("/home/user//", "docs"), "/home/user/docs");
    assert_eq!(child_path("/", "etc"), "/etc");
    assert_eq!(child_path("", "etc"), "");
}

#[test]
fn hard_linked_files_count_once() {
    assert!(!needs_dedup(1));
    assert!(!needs_dedup(0));
    assert!(needs_dedup(2));
    assert!(link_counted(1, false));
    assert!(link_counted(3, true));
    assert!(!link_counted(3, false));
}

#[test]
fn scan_stays_on_the_root_mount_unless_told() {
    assert!(descends_into(false, Some(7), 7));
    assert!(!descends_into(false, Some(8), 7));
    assert!(!descends_into(false, None, 7));
    assert!(descends_into(true, Some(8), 7));
    assert!(descends_into(true, None, 7));
}
