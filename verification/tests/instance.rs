use zen::instance::{err, hmtx, name_rows, patch};

#[test]
fn the_name_rows_of_a_medium_cut() {
    let rows = name_rows("Zen Medium Cut", "Medium", "Copyright 2026 Hanzo AI, Inc.");
    let want: Vec<(u16, u16, u16, u16, String)> = vec![
        (3, 1, 0x409, 0, "Copyright 2026 Hanzo AI, Inc.".into()),
        (3, 1, 0x409, 1, "Zen Medium Cut".into()),
        (3, 1, 0x409, 2, "Medium".into()),
        (3, 1, 0x409, 3, "ZenMediumCutMedium;HNZO".into()),
        (3, 1, 0x409, 4, "Zen Medium Cut Medium".into()),
        (3, 1, 0x409, 5, "Version 1.000".into()),
        (3, 1, 0x409, 6, "ZenMediumCutMedium".into()),
    ];
    assert_eq!(rows, want);
}

#[test]
fn a_regular_cut_is_named_by_its_family() {
    let rows = name_rows("Zen Pixel Square", "Regular", "n");
    assert_eq!(rows[4], (3, 1, 0x409, 4, "Zen Pixel Square".to_string()));
    assert_eq!(rows[6], (3, 1, 0x409, 6, "ZenPixelSquare".to_string()));
    assert_eq!(rows[3], (3, 1, 0x409, 3, "ZenPixelSquare;HNZO".to_string()));
}

#[test]
fn a_patch_writes_big_endian_in_place() {
    let mut t = vec![0u8; 6];
    patch(&mut t, 4, 0x0102);
    assert_eq!(t, vec![0, 0, 0, 0, 1, 2]);
    patch(&mut t, 5, 0xFFFF);
    assert_eq!(t, vec![0, 0, 0, 0, 1, 2]);
    patch(&mut t, usize::MAX, 7);
    assert_eq!(t, vec![0, 0, 0, 0, 1, 2]);
}

#[test]
fn metrics_are_written_advance_then_bearing() {
    assert_eq!(hmtx(&[(600, -20), (0, 5)]), vec![0x02, 0x58, 0xFF, 0xEC, 0, 0, 0, 5]);
    assert!(hmtx(&[]).is_empty());
}

#[test]
fn an_error_carries_its_message() {
    assert_eq!(err("source has no head").message(), "source has no head");
}
