use zen::sfnt::{be16, be32, checksum};
use zen::text::{decode, encode, renamed, str_chars};

#[test]
fn utf16_pairs_decode_to_one_character() {
    let raw = [0xD8, 0x3D, 0xDE, 0x00, 0x00, 0x41];
    assert_eq!(decode(3, &raw), Some(vec!['\u{1F600}', 'A']));
    assert_eq!(encode(3, &['\u{1F600}', 'A']), raw.to_vec());
}

#[test]
fn broken_utf16_does_not_decode() {
    assert_eq!(decode(3, &[0x00]), None);
    assert_eq!(decode(3, &[0xDC, 0x00]), None);
    assert_eq!(decode(3, &[0xD8, 0x00, 0x00, 0x41]), None);
    assert_eq!(decode(3, &[]), Some(vec![]));
}

#[test]
fn other_platforms_are_one_byte_per_character() {
    assert_eq!(decode(1, &[0x5A, 0xE9]), Some(vec!['Z', 'é']));
    assert_eq!(encode(1, &['Z', 'é']), vec![0x5A, 0xE9]);
    // Only the low byte of a wider character survives.
    assert_eq!(encode(1, &['\u{141}']), vec![0x41]);
}

#[test]
fn chars_of_a_str() {
    assert_eq!(str_chars("Zé"), vec!['Z', 'é']);
}

#[test]
fn big_endian_fields() {
    let b = [0x12, 0x34, 0x56, 0x78];
    assert_eq!(be16(&b, 1), 0x3456);
    assert_eq!(be32(&b, 0), 0x1234_5678);
}

#[test]
fn checksum_pads_and_wraps() {
    assert_eq!(checksum(&[]), 0);
    assert_eq!(checksum(&[0, 0, 0, 1, 0, 0, 0, 2]), 3);
    assert_eq!(checksum(&[1]), 0x0100_0000);
    assert_eq!(checksum(&[0xFF, 0xFF, 0xFF, 0xFF, 0, 0, 0, 2]), 1);
}

#[test]
fn checksums_add_up_over_aligned_pieces() {
    let a = [0xFF, 0xFF, 0xFF, 0xF0, 0x12, 0x34, 0x56, 0x78];
    let b = [0x00, 0x00, 0x01, 0x00, 0xAB];
    let whole: Vec<u8> = [&a[..], &b[..]].concat();
    assert_eq!(checksum(&whole), checksum(&a).wrapping_add(checksum(&b)));
    assert_eq!(checksum(&whole), 0x1234_5668u32.wrapping_add(0xAB00_0100));
}

#[test]
fn zero_padding_leaves_the_checksum_alone() {
    let t = [0x01, 0x02, 0x03, 0x04, 0x05];
    for k in 0..9 {
        let padded: Vec<u8> = [&t[..], &vec![0u8; k][..]].concat();
        assert_eq!(checksum(&padded), checksum(&t));
    }
}

#[test]
fn decoded_bytes_encode_back_to_themselves() {
    for (platform, raw) in [
        (3u16, vec![0xD8, 0x3D, 0xDE, 0x00, 0x00, 0x41]),
        (3, vec![0x00, 0x47, 0xFF, 0xFD]),
        (1, vec![0x00, 0x5A, 0xE9, 0xFF]),
        (0, vec![]),
    ] {
        let text = decode(platform, &raw).unwrap();
        assert_eq!(encode(platform, &text), raw);
    }
}

#[test]
fn renaming_is_replacing_geist_with_zen() {
    for s in [
        "Geist Pixel Grid",
        "Geist Mono Bold",
        "GGeist Pixel Line Geist Pixel Triangle",
        "Geis Geist",
        "Zen",
        "",
    ] {
        assert_eq!(renamed(s), s.replace("Geist", "Zen"));
    }
    assert_eq!(renamed("Geist Pixel Circle"), "Zen Pixel Circle");
}
