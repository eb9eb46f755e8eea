use rsdirstat::color::{age_hue, hash_id_to_hue, hash_name, hsl_text, hue_for_extension, shown_hue, COLOR_MODE_AGE};

#[test]
fn hash_name_known_values() {
    assert_eq!(hash_name("hello"), 322);
    assert_eq!(hash_name("world"), 162);
    assert_eq!(hash_name(""), 0);
}

#[test]
fn hash_name_in_range() {
    for name in ["hello", "world", "", "a", "long_file_name.tar.gz", "日本語"] {
        let h = hash_name(name);
        assert!(h < 360, "hash_name({name:?}) = {h}, expected < 360");
    }
}

#[test]
fn hash_name_different_names_differ() {
    assert_ne!(hash_name("hello"), hash_name("world"));
    assert_ne!(hash_name("foo"), hash_name("bar"));
}

#[test]
fn hash_id_to_hue_known_values() {
    assert_eq!(hash_id_to_hue(0), 0);
    assert_eq!(hash_id_to_hue(42), 145);
}

#[test]
fn hash_id_to_hue_in_range() {
    for id in [0, 1, 100, u64::MAX, u64::MAX / 2] {
        let h = hash_id_to_hue(id);
        assert!(h < 360, "hash_id_to_hue({id}) = {h}, expected < 360");
    }
}

#[test]
fn hue_for_extension_video() {
    assert_eq!(hue_for_extension("mp4"), 220);
    assert_eq!(hue_for_extension("mkv"), 220);
}

#[test]
fn hue_for_extension_audio() {
    assert_eq!(hue_for_extension("mp3"), 280);
    assert_eq!(hue_for_extension("flac"), 280);
}

#[test]
fn hue_for_extension_image() {
    assert_eq!(hue_for_extension("png"), 130);
    assert_eq!(hue_for_extension("jpg"), 130);
}

#[test]
fn hue_for_extension_text() {
    assert_eq!(hue_for_extension("txt"), 55);
    assert_eq!(hue_for_extension("csv"), 55);
}

#[test]
fn hue_for_extension_font() {
    assert_eq!(hue_for_extension("ttf"), 310);
}

#[test]
fn hue_for_extension_woff_as_application() {
    // mime_guess classifies woff as application/font-woff, not font/*
    assert_eq!(hue_for_extension("woff"), 5);
}

#[test]
fn hue_for_extension_application() {
    assert_eq!(hue_for_extension("exe"), 5);
    assert_eq!(hue_for_extension("pdf"), 5);
}

#[test]
fn hue_for_extension_unknown_gets_application() {
    assert_eq!(hue_for_extension("xyzzy_unknown"), 5);
}

#[test]
fn age_hue_midpoint() {
    assert_eq!(age_hue(50, 0, 100), 60);
}

#[test]
fn age_hue_at_min() {
    assert_eq!(age_hue(1, 1, 101), 0);
}

#[test]
fn age_hue_at_max() {
    assert_eq!(age_hue(100, 0, 100), 120);
}

#[test]
fn age_hue_degenerate_equal_bounds() {
    assert_eq!(age_hue(50, 50, 50), 60);
}

#[test]
fn age_hue_degenerate_inverted_bounds() {
    assert_eq!(age_hue(50, 100, 0), 60);
}

#[test]
fn age_hue_degenerate_zero_mtime() {
    assert_eq!(age_hue(0, 0, 100), 60);
    assert_eq!(age_hue(-1, 0, 100), 60);
}

#[test]
fn age_hue_rounds_down_and_clamps() {
    assert_eq!(age_hue(2, 1, 4), 40);
    assert_eq!(age_hue(3, 1, 4), 80);
    assert_eq!(age_hue(500, 0, 100), 120);
    assert_eq!(age_hue(5, 10, 100), 0);
}

#[test]
fn hue_for_extension_is_case_insensitive_for_known_types() {
    assert_eq!(hue_for_extension("PNG"), 130);
}

#[test]
fn hsl_format_matches_existing_js_behavior() {
    assert_eq!(hsl_text(120, 50, 40), "hsl(120,50%,40%)");
    assert_eq!(hsl_text(120, 50, 40), "hsl(120,50%,40%)");
}

#[test]
fn hsl_text_writes_zero_and_extremes() {
    assert_eq!(hsl_text(0, 0, 0), "hsl(0,0%,0%)");
    assert_eq!(hsl_text(359, 100, 255), "hsl(359,100%,255%)");
}

#[test]
fn age_mode_colours_by_time_and_the_other_modes_by_own_hue() {
    assert_eq!(shown_hue(COLOR_MODE_AGE, 300, 150, (100, 200)), 60);
    assert_eq!(shown_hue(COLOR_MODE_AGE, 300, 200, (100, 200)), 120);
    assert_eq!(shown_hue(0, 300, 150, (100, 200)), 300);
}
