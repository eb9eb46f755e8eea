use rsdirstat::text::push_decimal;
use rsdirstat::volumes::{volumes_json, VolumeInfo, drive_label};

fn volume(name: &str, mount_point: &str, total: u64, used: u64, fs_type: &str) -> VolumeInfo {
    VolumeInfo {
        name: name.to_string(),
        mount_point: mount_point.to_string(),
        total_bytes: total,
        used_bytes: used,
        fs_type: fs_type.to_string(),
    }
}

#[test]
fn decimal_digits_without_leading_zeros() {
    let mut s = String::from("n=");
    push_decimal(&mut s, 0);
    assert_eq!(s, "n=0");
    let mut t = String::new();
    push_decimal(&mut t, 1_234_567_890);
    assert_eq!(t, "1234567890");
    let mut u = String::new();
    push_decimal(&mut u, u64::MAX);
    assert_eq!(u, "18446744073709551615");
}

#[test]
fn volumes_json_lists_each_volume() {
    let volumes = vec![
        volume("Root", "/", 1000, 250, "ext4"),
        volume("my \"disk\"", "/mnt/data", 0, 0, "xfs"),
    ];
    let first = r#"{"name":"Root","mountPoint":"/","totalBytes":1000,"usedBytes":250,"fsType":"ext4"}"#;
    let second = r#"{"name":"my \"disk\"","mountPoint":"/mnt/data","totalBytes":0,"usedBytes":0,"fsType":"xfs"}"#;
    assert_eq!(volumes_json(&volumes), format!("[{first},{second}]"));
}

#[test]
fn volumes_json_of_none_is_empty_array() {
    assert_eq!(volumes_json(&Vec::new()), "[]");
}

#[test]
fn drive_names_fall_back_to_local_disk() {
    assert_eq!(drive_label("", "C:\\"), "Local Disk (C:\\)");
    assert_eq!(drive_label("Data", "D:\\"), "Data (D:\\)");
}
