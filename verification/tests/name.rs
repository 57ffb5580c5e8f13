use zen::name::{maker, renamed, rewrite, rewrite_checked, Changed, HOME, MAKER};
use zen::sfnt::checksum;

/// The renaming is longest-first, so the family inside another family is not
/// eaten.
#[test]
fn mono_is_not_renamed_as_sans() {
    assert_eq!(renamed("Geist Mono"), "Zen Mono");
    assert_eq!(renamed("Geist Mono Black"), "Zen Mono Black");
    assert_eq!(renamed("GeistMono-Bold"), "ZenMono-Bold");
    assert_eq!(renamed("Geist"), "Zen");
    assert_eq!(renamed("Geist Pixel Circle"), "Zen Pixel Circle");
}

/// nameID 0 is not in the maker set: OFL 1.1 §1 keeps copyright notices in
/// every copy.
#[test]
fn the_copyright_is_never_a_maker_field() {
    assert!(maker(0).is_none());
    assert_eq!(maker(9), Some(MAKER));
    assert_eq!(maker(11), Some(HOME));
}

#[test]
fn the_maker_fields_name_us() {
    assert_eq!(maker(8), Some("Hanzo AI, Inc."));
    assert_eq!(maker(12), Some("https://hanzo.ai"));
    assert_eq!(maker(1), None);
    assert_eq!(maker(10), None);
}

#[test]
fn renaming_twice_is_renaming_once() {
    for s in ["Geist Pixel Grid Geist", "GeistGeist", "Zen", "Geist Mono Geist Pixel Line"] {
        let once = renamed(s);
        assert_eq!(renamed(&once), once);
    }
    assert_eq!(renamed("GeistGeist"), "ZenZen");
    assert_eq!(renamed("Geist Pixel Grid Geist"), "Zen Pixel Grid Zen");
}

#[test]
fn renaming_leaves_other_text_alone() {
    assert_eq!(renamed("Copyright 2024 The Geist Project Authors"), "Copyright 2024 The Zen Project Authors");
    assert_eq!(renamed("Inter"), "Inter");
    assert_eq!(renamed(""), "");
    assert_eq!(renamed("Geis"), "Geis");
}

#[test]
fn changed_reports_any_change() {
    assert!(!Changed { records: 0, vendor: false }.any());
    assert!(Changed { records: 2, vendor: false }.any());
    assert!(Changed { records: 0, vendor: true }.any());
}

fn be16(b: &[u8], at: usize) -> usize {
    u16::from_be_bytes([b[at], b[at + 1]]) as usize
}

fn be32(b: &[u8], at: usize) -> usize {
    u32::from_be_bytes([b[at], b[at + 1], b[at + 2], b[at + 3]]) as usize
}

fn utf16(s: &str) -> Vec<u8> {
    s.encode_utf16().flat_map(u16::to_be_bytes).collect()
}

/// A `name` table from (platform, nameID, bytes), strings stored in order.
fn name_table(records: &[(u16, u16, Vec<u8>)]) -> Vec<u8> {
    let mut out = Vec::new();
    let mut store = Vec::new();
    out.extend_from_slice(&0u16.to_be_bytes());
    out.extend_from_slice(&(records.len() as u16).to_be_bytes());
    out.extend_from_slice(&((6 + 12 * records.len()) as u16).to_be_bytes());
    for (platform, id, bytes) in records {
        let enc: u16 = if *platform == 3 { 1 } else { 0 };
        let lang: u16 = if *platform == 3 { 0x409 } else { 0 };
        out.extend_from_slice(&platform.to_be_bytes());
        out.extend_from_slice(&enc.to_be_bytes());
        out.extend_from_slice(&lang.to_be_bytes());
        out.extend_from_slice(&id.to_be_bytes());
        out.extend_from_slice(&(bytes.len() as u16).to_be_bytes());
        out.extend_from_slice(&(store.len() as u16).to_be_bytes());
        store.extend_from_slice(bytes);
    }
    out.extend_from_slice(&store);
    out
}

/// A font from (tag, body), laid out in order.
fn font(tables: &[(&[u8; 4], Vec<u8>)]) -> Vec<u8> {
    let mut out = vec![0u8; 12 + 16 * tables.len()];
    out[..4].copy_from_slice(&0x0001_0000u32.to_be_bytes());
    out[4..6].copy_from_slice(&(tables.len() as u16).to_be_bytes());
    for (i, (tag, body)) in tables.iter().enumerate() {
        while out.len() % 4 != 0 {
            out.push(0);
        }
        let at = out.len();
        out.extend_from_slice(body);
        let rec = 12 + 16 * i;
        out[rec..rec + 4].copy_from_slice(*tag);
        out[rec + 8..rec + 12].copy_from_slice(&(at as u32).to_be_bytes());
        out[rec + 12..rec + 16].copy_from_slice(&(body.len() as u32).to_be_bytes());
    }
    out
}

fn table<'a>(f: &'a [u8], want: &[u8; 4]) -> &'a [u8] {
    let num = be16(f, 4);
    for i in 0..num {
        let at = 12 + i * 16;
        if &f[at..at + 4] == want {
            let off = be32(f, at + 8);
            let len = be32(f, at + 12);
            return &f[off..off + len];
        }
    }
    &[]
}

/// The (platform, nameID, text) records of a `name` table.
fn records(name: &[u8]) -> Vec<(u16, u16, String)> {
    let count = be16(name, 2);
    let store = be16(name, 4);
    let mut out = Vec::new();
    for i in 0..count {
        let at = 6 + 12 * i;
        let platform = be16(name, at) as u16;
        let id = be16(name, at + 6) as u16;
        let len = be16(name, at + 8);
        let off = be16(name, at + 10);
        let raw = &name[store + off..store + off + len];
        let text = if platform == 3 {
            let units: Vec<u16> = raw.chunks(2).map(|c| u16::from_be_bytes([c[0], c[1]])).collect();
            String::from_utf16(&units).unwrap()
        } else {
            raw.iter().map(|&b| b as char).collect()
        };
        out.push((platform, id, text));
    }
    out
}

fn stale_face() -> Vec<u8> {
    let mut head = vec![0u8; 54];
    head[12..16].copy_from_slice(&0x5F0F_3CF5u32.to_be_bytes());
    let name = name_table(&[
        (3, 0, utf16("Copyright 2024 The Geist Project Authors")),
        (3, 1, utf16("Geist Mono")),
        (3, 4, utf16("Geist Mono Bold")),
        (3, 6, utf16("GeistMono-Bold")),
        (3, 9, utf16("Vercel")),
        (1, 1, b"Geist Mono".to_vec()),
        (3, 2, utf16("Bold")),
    ]);
    let mut os2 = vec![7u8; 96];
    os2[58..62].copy_from_slice(b"VRCL");
    let glyf: Vec<u8> = (0..37u8).collect();
    font(&[(b"OS/2", os2), (b"glyf", glyf), (b"head", head), (b"name", name)])
}

#[test]
fn a_built_face_is_relabelled_and_keeps_its_glyphs() {
    let before = stale_face();
    let (out, what) = rewrite(&before).expect("rewrite");
    assert_eq!(what.records, 5);
    assert!(what.vendor);
    assert_eq!(table(&before, b"glyf"), table(&out, b"glyf"), "the outlines moved");
    assert_eq!(&table(&out, b"OS/2")[58..62], b"HNZO");
    assert_eq!(table(&out, b"OS/2")[..58], table(&before, b"OS/2")[..58]);
    let names = records(table(&out, b"name"));
    assert_eq!(names.len(), 7);
    assert_eq!(names[0], (3, 0, "Copyright 2024 The Geist Project Authors".to_string()));
    assert_eq!(names[1], (3, 1, "Zen Mono".to_string()));
    assert_eq!(names[2], (3, 4, "Zen Mono Bold".to_string()));
    assert_eq!(names[3], (3, 6, "ZenMono-Bold".to_string()));
    assert_eq!(names[4], (3, 9, "Hanzo AI, Inc.".to_string()));
    assert_eq!(names[5], (1, 1, "Zen Mono".to_string()));
    assert_eq!(names[6], (3, 2, "Bold".to_string()));
}

#[test]
fn a_rewritten_face_sums_to_the_magic_number() {
    let (out, _) = rewrite(&stale_face()).expect("rewrite");
    assert_eq!(checksum(&out), 0xB1B0_AFBA);
    let num = be16(&out, 4);
    for i in 0..num {
        let at = 12 + 16 * i;
        let body = &out[be32(&out, at + 8)..be32(&out, at + 8) + be32(&out, at + 12)];
        if &out[at..at + 4] != b"head" {
            assert_eq!(checksum(body) as usize, be32(&out, at + 4));
        }
    }
}

#[test]
fn rewriting_twice_is_rewriting_once() {
    let (out, _) = rewrite(&stale_face()).expect("rewrite");
    let (again, twice) = rewrite(&out).expect("second");
    assert!(!twice.any(), "already-correct input must not be rewritten");
    assert_eq!(twice, Changed::default());
    assert_eq!(again, out);
}

#[test]
fn identical_strings_are_stored_once() {
    let name = name_table(&[
        (3, 1, utf16("Geist Mono")),
        (3, 16, utf16("Geist Mono")),
        (3, 4, utf16("Geist")),
    ]);
    let (out, _) = rewrite(&font(&[(b"name", name)])).expect("rewrite");
    let name = table(&out, b"name");
    let store = be16(name, 4);
    // One copy of "Zen Mono"; "Zen" is found inside it.
    assert_eq!(name.len() - store, utf16("Zen Mono").len());
    assert_eq!(be16(name, 6 + 10), 0);
    assert_eq!(be16(name, 18 + 10), 0);
    assert_eq!(be16(name, 30 + 10), 0);
    assert_eq!(be16(name, 30 + 8), 6);
}

#[test]
fn refused_inputs_say_why() {
    assert_eq!(rewrite(&[0u8; 11]), Err("not an sfnt".to_string()));
    let mut bad = vec![0u8; 12];
    bad[..4].copy_from_slice(&0xDEAD_BEEFu32.to_be_bytes());
    assert_eq!(rewrite(&bad), Err("not a ttf or otf (sfnt tag 0xdeadbeef)".to_string()));
    let mut short = vec![0u8; 12];
    short[..4].copy_from_slice(b"OTTO");
    short[5] = 1;
    assert_eq!(rewrite(&short), Err("truncated table directory".to_string()));
    let no_name = font(&[(b"glyf", vec![1, 2, 3])]);
    assert_eq!(rewrite(&no_name), Err("no name table".to_string()));
    let mut past = font(&[(b"name", name_table(&[]))]);
    let len = past.len() as u32;
    past[12 + 12..12 + 16].copy_from_slice(&(len).to_be_bytes());
    assert_eq!(rewrite(&past), Err("name table runs past the end".to_string()));
    let mut name = name_table(&[(3, 1, utf16("Geist"))]);
    name[6 + 8..6 + 10].copy_from_slice(&200u16.to_be_bytes());
    assert_eq!(rewrite(&font(&[(b"name", name)])), Err("name record runs past the table".to_string()));
    let mut tagged = vec![0u8; 12];
    tagged[..4].copy_from_slice(b"true");
    assert_eq!(rewrite(&tagged), Err("no name table".to_string()));
    let mut zero = vec![0u8; 12];
    zero[..4].copy_from_slice(&0x10u32.to_be_bytes());
    assert_eq!(rewrite(&zero), Err("not a ttf or otf (sfnt tag 0x10)".to_string()));
}

#[test]
fn a_correct_face_comes_back_unchanged() {
    let mut os2 = vec![0u8; 96];
    os2[58..62].copy_from_slice(b"HNZO");
    let name = name_table(&[(3, 1, utf16("Zen")), (3, 8, utf16("Hanzo AI, Inc."))]);
    let f = font(&[(b"name", name), (b"OS/2", os2)]);
    let (out, what) = rewrite(&f).expect("rewrite");
    assert_eq!(what, Changed { records: 0, vendor: false });
    assert_eq!(out, f);
}

#[test]
fn an_undecodable_record_is_dropped() {
    // An unpaired high surrogate on platform 3 is not UTF-16.
    let name = name_table(&[(3, 1, vec![0xD8, 0x00]), (3, 4, utf16("Geist"))]);
    let f = font(&[(b"name", name)]);
    let (out, what) = rewrite(&f).expect("rewrite");
    assert_eq!(what.records, 1);
    let names = records(table(&out, b"name"));
    assert_eq!(names, vec![(3, 4, "Zen".to_string())]);
}

#[test]
fn a_name_table_too_short_for_its_header_is_undefined() {
    let mut name = name_table(&[]);
    name[2..4].copy_from_slice(&3u16.to_be_bytes());
    let f = font(&[(b"name", name)]);
    assert!(rewrite_checked(&f).is_none());
    assert!(rewrite_checked(&stale_face()).is_some());
}

#[test]
fn the_vendor_alone_is_a_change() {
    let mut os2 = vec![0u8; 70];
    os2[58..62].copy_from_slice(b"VRCL");
    let name = name_table(&[(3, 1, utf16("Zen"))]);
    let f = font(&[(b"name", name), (b"OS/2", os2)]);
    let (out, what) = rewrite(&f).expect("rewrite");
    assert_eq!(what, Changed { records: 0, vendor: true });
    assert_eq!(&table(&out, b"OS/2")[58..62], b"HNZO");
    assert_eq!(records(table(&out, b"name")), vec![(3, 1, "Zen".to_string())]);
}

#[test]
fn the_directory_keeps_its_order() {
    let before = stale_face();
    let (out, _) = rewrite(&before).expect("rewrite");
    let num = be16(&before, 4);
    assert_eq!(be16(&out, 4), num);
    let mut end = 12 + 16 * num;
    for i in 0..num {
        let at = 12 + 16 * i;
        assert_eq!(&out[at..at + 4], &before[at..at + 4]);
        let off = be32(&out, at + 8);
        assert!(off >= end);
        assert_eq!(off % 4, 0);
        end = off + be32(&out, at + 12);
    }
    assert!(end <= out.len());
}
