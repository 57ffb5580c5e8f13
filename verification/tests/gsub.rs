use std::collections::HashMap;
use zen::gsub::{feature_substitutions, substitutions, SingleSubtable};

fn be16(out: &mut Vec<u8>, v: u16) {
    out.extend_from_slice(&v.to_be_bytes());
}

/// A GSUB table with two features: `ss01` runs lookups 0 and 1, `liga` runs
/// lookup 2. Lookup 0 moves glyphs 3 and 7 by +5 (format 1), lookup 1 maps
/// glyph 3 to 20 (format 2), lookup 2 moves glyph 9 by -3.
fn gsub_table() -> Vec<u8> {
    let mut t = Vec::new();
    for v in [1, 0, 10, 12, 40] {
        be16(&mut t, v);
    }
    be16(&mut t, 0); // no scripts
    be16(&mut t, 2); // two feature records
    t.extend_from_slice(b"ss01");
    be16(&mut t, 14);
    t.extend_from_slice(b"liga");
    be16(&mut t, 22);
    for v in [0, 2, 0, 1] {
        be16(&mut t, v);
    }
    for v in [0, 1, 2] {
        be16(&mut t, v);
    }
    for v in [3, 8, 30, 52] {
        be16(&mut t, v); // three lookups
    }
    // Lookup 0: format 1, +5, covering 3 and 7.
    for v in [1, 0, 1, 8, 1, 6, 5, 1, 2, 3, 7] {
        be16(&mut t, v);
    }
    // Lookup 1: format 2, 3 -> 20.
    for v in [1, 0, 1, 8, 2, 8, 1, 20, 1, 1, 3] {
        be16(&mut t, v);
    }
    // Lookup 2: format 1, -3, covering 9.
    for v in [1, 0, 1, 8, 1, 6, 0xFFFD, 1, 1, 9] {
        be16(&mut t, v);
    }
    assert_eq!(t.len(), 112);
    t
}

/// A font holding just that GSUB table.
fn font() -> Vec<u8> {
    let gsub = gsub_table();
    let mut f = Vec::new();
    f.extend_from_slice(&0x0001_0000u32.to_be_bytes());
    for v in [1, 16, 0, 0] {
        be16(&mut f, v);
    }
    f.extend_from_slice(b"GSUB");
    f.extend_from_slice(&0u32.to_be_bytes());
    f.extend_from_slice(&28u32.to_be_bytes());
    f.extend_from_slice(&(gsub.len() as u32).to_be_bytes());
    f.extend_from_slice(&gsub);
    f
}

#[test]
fn a_stylistic_set_maps_its_glyphs_and_a_later_lookup_wins() {
    let swap = substitutions(&font(), &["ss01"]);
    let want: HashMap<u32, u32> = [(3, 20), (7, 12)].into_iter().collect();
    assert_eq!(swap, want);
}

#[test]
fn only_the_named_features_are_applied() {
    let liga = substitutions(&font(), &["liga"]);
    assert_eq!(liga, [(9, 6)].into_iter().collect::<HashMap<u32, u32>>());
    let both = substitutions(&font(), &["liga", "ss01"]);
    assert_eq!(both, [(3, 20), (7, 12), (9, 6)].into_iter().collect::<HashMap<u32, u32>>());
    assert!(substitutions(&font(), &[]).is_empty());
    assert!(substitutions(&font(), &["smcp"]).is_empty());
}

#[test]
fn a_name_that_is_no_tag_names_no_feature() {
    assert!(substitutions(&font(), &["ss01x"]).is_empty());
    assert!(substitutions(&font(), &[""]).is_empty());
    assert!(substitutions(&font(), &[" s01"]).is_empty());
    assert!(substitutions(&font(), &["ss0"]).is_empty());
    assert_eq!(substitutions(&font(), &["", "ss01"]).len(), 2);
}

#[test]
fn a_font_without_gsub_substitutes_nothing() {
    assert!(substitutions(b"not a font", &["ss01"]).is_empty());
    assert!(substitutions(&[], &["ss01"]).is_empty());
}

#[test]
fn a_negative_delta_wraps_and_pairs_stop_at_the_shorter_list() {
    let lookups = vec![
        Some(vec![SingleSubtable::Delta { coverage: vec![2, 10], delta: -5 }]),
        None,
        Some(vec![SingleSubtable::Pairs { coverage: vec![1, 2, 3], substitutes: vec![30, 40] }]),
    ];
    let features = vec![(0x7373_3031u32, vec![0u16, 1, 9]), (0x6c69_6761, vec![2])];
    let ss01 = feature_substitutions(&features, &lookups, &[0x7373_3031]);
    let want: HashMap<u32, u32> = [(2, 0xFFFF_FFFD), (10, 5)].into_iter().collect();
    assert_eq!(ss01, want);
    let all = feature_substitutions(&features, &lookups, &[0x6c69_6761, 0x7373_3031]);
    let want: HashMap<u32, u32> = [(1, 30), (2, 40), (10, 5)].into_iter().collect();
    assert_eq!(all, want);
    assert!(feature_substitutions(&features, &lookups, &[]).is_empty());
}
