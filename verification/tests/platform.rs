use rsdirstat::platform::{
    filetime_to_unix, makedev, strip_extended_prefix, utf16_to_string, volume_usage, wide_str,
};

#[test]
fn makedev_puts_major_high() {
    assert_eq!(makedev(0, 0), 0);
    assert_eq!(makedev(1, 2), (1u64 << 32) | 2);
    assert_eq!(makedev(u32::MAX, u32::MAX), u64::MAX);
}

#[test]
fn filetime_converts_to_unix_seconds() {
    assert_eq!(filetime_to_unix(116_444_736_000_000_000), 0);
    assert_eq!(filetime_to_unix(116_444_736_019_999_999), 1);
    assert_eq!(filetime_to_unix(0), -11_644_473_600);
    assert_eq!(filetime_to_unix(-15_000_000), -11_644_473_601);
    assert_eq!(filetime_to_unix(i64::MIN), i64::MIN / 10_000_000 - 11_644_473_600);
}

#[test]
fn wide_str_is_zero_terminated_utf16() {
    assert_eq!(wide_str("A"), vec![0x41, 0]);
    assert_eq!(wide_str("𝄞"), vec![0xD834, 0xDD1E, 0]);
    assert_eq!(wide_str(""), vec![0]);
}

#[test]
fn strip_extended_prefix_removes_marker() {
    assert_eq!(strip_extended_prefix(r"\\?\C:\data"), r"C:\data");
    assert_eq!(strip_extended_prefix(r"C:\data"), r"C:\data");
    assert_eq!(strip_extended_prefix(r"\\?"), r"\\?");
}

#[test]
fn utf16_to_string_stops_at_zero_and_replaces_lone_surrogates() {
    assert_eq!(utf16_to_string(&[0x43, 0x3A, 0, 0x44]), "C:");
    assert_eq!(utf16_to_string(&[0xD834, 0xDD1E]), "𝄞");
    assert_eq!(utf16_to_string(&[0xD834, 0x41]), "\u{FFFD}A");
    assert_eq!(utf16_to_string(&[0xDD1E]), "\u{FFFD}");
    assert_eq!(utf16_to_string(&[]), "");
}

#[test]
fn volume_usage_counts_used_blocks() {
    assert_eq!(volume_usage(1000, 250, 4096), (4_096_000, 3_072_000));
    assert_eq!(volume_usage(10, 20, 512), (5120, 0));
    assert_eq!(volume_usage(0, 0, 4096), (0, 0));
}
