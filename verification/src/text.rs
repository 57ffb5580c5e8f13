//! Name strings: UTF-16BE and Latin-1 byte forms, and the family renaming.
use vstd::prelude::*;
use vstd::string::*;
use crate::sfnt::{spec_be16, u16_bytes, push_u16};

verus! {

/// `c` in front of the string in `o`, if there is one.
pub open spec fn prepend(c: char, o: Option<Seq<char>>) -> Option<Seq<char>> {
    match o {
        Some(t) => Some(seq![c] + t),
        None => None,
    }
}

/// `p` in front of the string in `o`, if there is one.
pub open spec fn prefix_with(p: Seq<char>, o: Option<Seq<char>>) -> Option<Seq<char>> {
    match o {
        Some(t) => Some(p + t),
        None => None,
    }
}

/// The characters of big-endian UTF-16 bytes, or `None` where the bytes are not
/// UTF-16: an odd length, or a surrogate that is not part of a pair.
pub open spec fn utf16_decode(raw: Seq<u8>) -> Option<Seq<char>>
    decreases raw.len(),
{
    if raw.len() == 0 {
        Some(seq![])
    } else if raw.len() < 2 {
        None
    } else {
        let u = spec_be16(raw, 0);
        if u < 0xD800 || u > 0xDFFF {
            prepend(u as char, utf16_decode(raw.skip(2)))
        } else if u <= 0xDBFF && raw.len() >= 4 && 0xDC00 <= spec_be16(raw, 2) <= 0xDFFF {
            prepend(
                (0x10000 + (u - 0xD800) * 1024 + (spec_be16(raw, 2) - 0xDC00)) as char,
                utf16_decode(raw.skip(4)),
            )
        } else {
            None
        }
    }
}

/// The big-endian UTF-16 bytes of one character.
pub open spec fn utf16_char(c: char) -> Seq<u8> {
    let v = c as u32 as int;
    if v < 0x10000 {
        u16_bytes(v)
    } else {
        u16_bytes(0xD800 + (v - 0x10000) / 1024) + u16_bytes(0xDC00 + (v - 0x10000) % 1024)
    }
}

/// The big-endian UTF-16 bytes of a string.
pub open spec fn utf16_encode(t: Seq<char>) -> Seq<u8>
    decreases t.len(),
{
    if t.len() == 0 {
        seq![]
    } else {
        utf16_encode(t.drop_last()) + utf16_char(t.last())
    }
}

/// One character per byte, the byte's value as the code point.
pub open spec fn latin1_decode(raw: Seq<u8>) -> Seq<char> {
    raw.map_values(|b: u8| b as char)
}

/// One byte per character: the low eight bits of its code point.
pub open spec fn latin1_encode(t: Seq<char>) -> Seq<u8> {
    t.map_values(|c: char| (c as u32 % 256) as u8)
}

/// A name record's text: UTF-16BE on platform 3 (Windows), one byte per
/// character on every other platform.
pub open spec fn spec_decode(platform: u16, raw: Seq<u8>) -> Option<Seq<char>> {
    if platform == 3 {
        utf16_decode(raw)
    } else {
        Some(latin1_decode(raw))
    }
}

/// The bytes a name record on `platform` stores for `t`.
pub open spec fn spec_encode(platform: u16, t: Seq<char>) -> Seq<u8> {
    if platform == 3 {
        utf16_encode(t)
    } else {
        latin1_encode(t)
    }
}

/// Every non-overlapping occurrence of `from` in `s`, leftmost first, replaced
/// by `to`. An empty `from` leaves `s` as it is.
pub open spec fn replace_all(s: Seq<char>, from: Seq<char>, to: Seq<char>) -> Seq<char>
    decreases s.len(),
{
    if from.len() == 0 || s.len() < from.len() {
        s
    } else if s.take(from.len() as int) == from {
        to + replace_all(s.skip(from.len() as int), from, to)
    } else {
        seq![s[0]] + replace_all(s.skip(1), from, to)
    }
}

/// The upstream family names, longest first, so "Geist Mono" is matched before
/// the "Geist" inside it.
pub open spec fn family_from(i: int) -> Seq<char> {
    if i == 0 {
        "Geist Pixel Circle"@
    } else if i == 1 {
        "Geist Pixel Triangle"@
    } else if i == 2 {
        "Geist Pixel Square"@
    } else if i == 3 {
        "Geist Pixel Grid"@
    } else if i == 4 {
        "Geist Pixel Line"@
    } else if i == 5 {
        "Geist Mono"@
    } else {
        "Geist"@
    }
}

/// What each upstream family name becomes.
pub open spec fn family_to(i: int) -> Seq<char> {
    if i == 0 {
        "Zen Pixel Circle"@
    } else if i == 1 {
        "Zen Pixel Triangle"@
    } else if i == 2 {
        "Zen Pixel Square"@
    } else if i == 3 {
        "Zen Pixel Grid"@
    } else if i == 4 {
        "Zen Pixel Line"@
    } else if i == 5 {
        "Zen Mono"@
    } else {
        "Zen"@
    }
}

/// How many family renamings there are.
pub open spec fn family_count() -> nat {
    7
}

/// `s` after the first `n` renamings, applied in order.
pub open spec fn rename_passes(s: Seq<char>, n: nat) -> Seq<char>
    decreases n,
{
    if n == 0 {
        s
    } else {
        replace_all(rename_passes(s, (n - 1) as nat), family_from(n - 1), family_to(n - 1))
    }
}

/// `s` with every upstream family name replaced by ours.
pub open spec fn spec_renamed(s: Seq<char>) -> Seq<char> {
    rename_passes(s, family_count())
}

/// Our manufacturer and designer.
pub const MAKER: &'static str = "Hanzo AI, Inc.";

/// Our vendor and designer URL.
pub const HOME: &'static str = "https://hanzo.ai";

/// The text of a record that names the maker rather than the family:
/// manufacturer (8) and designer (9) name the maker, the vendor URL (11) and
/// designer URL (12) its home. nameID 0, the copyright, is not among them.
pub open spec fn maker_text(id: u16) -> Option<Seq<char>> {
    if id == 8 || id == 9 {
        Some(MAKER@)
    } else if id == 11 || id == 12 {
        Some(HOME@)
    } else {
        None
    }
}

/// Exactly four records name the maker: the manufacturer (8) and designer (9)
/// say "Hanzo AI, Inc.", the vendor URL (11) and designer URL (12) say
/// "https://hanzo.ai", and no other nameID, the licence URL (14) and the
/// copyright (0) among them, is a maker record.
pub proof fn law_maker_ids(id: u16)
    ensures
        (id == 8 || id == 9) ==> maker_text(id) == Some("Hanzo AI, Inc."@),
        (id == 11 || id == 12) ==> maker_text(id) == Some("https://hanzo.ai"@),
        !(id == 8 || id == 9 || id == 11 || id == 12) ==> maker_text(id) is None,
{
}

/// The characters of `s`.
pub fn str_chars(s: &str) -> (v: Vec<char>)
    ensures
        v@ == s@,
{
    let n = s.unicode_len();
    let mut v: Vec<char> = Vec::new();
    let mut i: usize = 0;
    while i < n
        invariant
            n == s@.len(),
            i <= n,
            v@ == s@.take(i as int),
        decreases n - i,
    {
        v.push(s.get_char(i));
        i = i + 1;
        assert(v@ =~= s@.take(i as int));
    }
    assert(v@ =~= s@);
    v
}

/// std's `String::push`: appends the character to the string.
#[verifier::external_body]
fn push_char(s: &mut String, c: char)
    ensures
        final(s)@ == old(s)@.push(c),
{
    s.push(c);
}

/// The string made of these characters, in order.
pub(crate) fn string_from_chars(v: &[char]) -> (s: String)
    ensures
        s@ == v@,
{
    let mut s = String::new();
    let mut i: usize = 0;
    while i < v.len()
        invariant
            i <= v@.len(),
            s@ =~= v@.take(i as int),
        decreases v@.len() - i,
    {
        push_char(&mut s, v[i]);
        i = i + 1;
    }
    assert(v@.take(v@.len() as int) =~= v@);
    s
}

/// std's `char::from_u32`: the character whose code point is `v`, for any
/// Unicode scalar value `v`.
#[verifier::external_body]
fn char_from_scalar(v: u32) -> (c: Option<char>)
    ensures
        (v <= 0x10FFFF && !(0xD800 <= v <= 0xDFFF)) ==> c == Some(v as char),
{
    char::from_u32(v)
}

/// The characters of big-endian UTF-16 bytes.
pub fn decode_utf16(raw: &[u8]) -> (r: Option<Vec<char>>)
    ensures
        r is Some == utf16_decode(raw@) is Some,
        r matches Some(v) ==> utf16_decode(raw@) == Some(v@),
{
    let len = raw.len();
    let mut out: Vec<char> = Vec::new();
    let mut i: usize = 0;
    assert(raw@.skip(0) =~= raw@);
    assert(out@ + seq![] =~= out@);
    while i < len
        invariant
            len == raw@.len(),
            i <= len,
            utf16_decode(raw@) == prefix_with(out@, utf16_decode(raw@.skip(i as int))),
        decreases len - i,
    {
        let rest = Ghost(raw@.skip(i as int));
        if len - i < 2 {
            return None;
        }
        let u = (raw[i] as u32) * 256 + (raw[i + 1] as u32);
        assert(u == spec_be16(rest@, 0));
        if u < 0xD800 || u > 0xDFFF {
            let c = char_from_scalar(u);
            match c {
                Some(ch) => {
                    assert(rest@.skip(2) =~= raw@.skip(i + 2));
                    assert(out@.push(ch) + utf16_decode(rest@.skip(2))->0 =~= out@ + (seq![ch]
                        + utf16_decode(rest@.skip(2))->0));
                    out.push(ch);
                    i = i + 2;
                },
                None => {
                    return None;
                },
            }
        } else if u <= 0xDBFF && len - i >= 4 {
            let lo = (raw[i + 2] as u32) * 256 + (raw[i + 3] as u32);
            assert(lo == spec_be16(rest@, 2));
            if 0xDC00 <= lo && lo <= 0xDFFF {
                let v = 0x10000 + (u - 0xD800) * 1024 + (lo - 0xDC00);
                let c = char_from_scalar(v);
                match c {
                    Some(ch) => {
                        assert(rest@.skip(4) =~= raw@.skip(i + 4));
                        assert(out@.push(ch) + utf16_decode(rest@.skip(4))->0 =~= out@ + (seq![
                            ch,
                        ] + utf16_decode(rest@.skip(4))->0));
                        out.push(ch);
                        i = i + 4;
                    },
                    None => {
                        return None;
                    },
                }
            } else {
                return None;
            }
        } else {
            return None;
        }
    }
    assert(raw@.skip(len as int) =~= seq![]);
    assert(out@ + seq![] =~= out@);
    Some(out)
}

/// The big-endian UTF-16 bytes of `t`.
pub fn encode_utf16(t: &[char]) -> (out: Vec<u8>)
    ensures
        out@ == utf16_encode(t@),
{
    let mut out: Vec<u8> = Vec::new();
    let mut i: usize = 0;
    assert(t@.take(0) =~= seq![]);
    while i < t.len()
        invariant
            i <= t@.len(),
            out@ == utf16_encode(t@.take(i as int)),
        decreases t@.len() - i,
    {
        let v = t[i] as u32;
        proof {
            vstd::utf8::char_is_scalar(t@[i as int]);
        }
        assert(t@.take(i + 1).drop_last() =~= t@.take(i as int));
        assert(t@.take(i + 1).last() == t@[i as int]);
        if v < 0x10000 {
            push_u16(&mut out, v as u16);
        } else {
            let w = v - 0x10000;
            push_u16(&mut out, (0xD800 + w / 1024) as u16);
            push_u16(&mut out, (0xDC00 + w % 1024) as u16);
            assert(out@ =~= utf16_encode(t@.take(i as int)) + utf16_char(t@[i as int]));
        }
        i = i + 1;
    }
    assert(t@.take(t@.len() as int) =~= t@);
    out
}

/// One character per byte.
pub fn decode_latin1(raw: &[u8]) -> (out: Vec<char>)
    ensures
        out@ == latin1_decode(raw@),
{
    let mut out: Vec<char> = Vec::new();
    let mut i: usize = 0;
    while i < raw.len()
        invariant
            i <= raw@.len(),
            out@ =~= latin1_decode(raw@).take(i as int),
        decreases raw@.len() - i,
    {
        out.push(raw[i] as char);
        i = i + 1;
    }
    out
}

/// The low eight bits of each character's code point.
pub fn encode_latin1(t: &[char]) -> (out: Vec<u8>)
    ensures
        out@ == latin1_encode(t@),
{
    let mut out: Vec<u8> = Vec::new();
    let mut i: usize = 0;
    while i < t.len()
        invariant
            i <= t@.len(),
            out@ =~= latin1_encode(t@).take(i as int),
        decreases t@.len() - i,
    {
        out.push((t[i] as u32 % 256) as u8);
        i = i + 1;
    }
    out
}

/// A name record's text, UTF-16BE on platform 3 and one byte per character
/// elsewhere; `None` where platform-3 bytes are not UTF-16.
pub fn decode(platform: u16, raw: &[u8]) -> (r: Option<Vec<char>>)
    ensures
        r is Some == spec_decode(platform, raw@) is Some,
        r matches Some(v) ==> spec_decode(platform, raw@) == Some(v@),
{
    if platform == 3 {
        decode_utf16(raw)
    } else {
        Some(decode_latin1(raw))
    }
}

/// The bytes a name record on `platform` stores for `text`.
pub fn encode(platform: u16, text: &[char]) -> (out: Vec<u8>)
    ensures
        out@ == spec_encode(platform, text@),
{
    if platform == 3 {
        encode_utf16(text)
    } else {
        encode_latin1(text)
    }
}

/// Are `a` and `b` the same string?
pub(crate) fn same_chars(a: &[char], b: &[char]) -> (r: bool)
    ensures
        r == (a@ == b@),
{
    if a.len() != b.len() {
        return false;
    }
    let mut k: usize = 0;
    while k < a.len()
        invariant
            a@.len() == b@.len(),
            k <= a@.len(),
            forall|j: int| 0 <= j < k ==> a@[j] == b@[j],
        decreases a@.len() - k,
    {
        if a[k] != b[k] {
            return false;
        }
        k = k + 1;
    }
    assert(a@ =~= b@);
    true
}

/// Does `pat` occur in `s` at `at`?
fn occurs_at(s: &[char], at: usize, pat: &[char]) -> (r: bool)
    requires
        at <= s@.len(),
    ensures
        r == (pat@.len() <= s@.len() - at && s@.skip(at as int).take(pat@.len() as int) == pat@),
{
    if pat.len() > s.len() - at {
        return false;
    }
    let n = s.len();
    let mut k: usize = 0;
    while k < pat.len()
        invariant
            n == s@.len(),
            at <= s@.len(),
            pat@.len() <= s@.len() - at,
            k <= pat@.len(),
            forall|j: int| 0 <= j < k ==> s@[at + j] == pat@[j],
        decreases pat@.len() - k,
    {
        if s[at + k] != pat[k] {
            assert(s@.skip(at as int).take(pat@.len() as int)[k as int] != pat@[k as int]);
            return false;
        }
        k = k + 1;
    }
    assert(s@.skip(at as int).take(pat@.len() as int) =~= pat@);
    true
}

/// Every non-overlapping occurrence of `from` in `s`, leftmost first, replaced by `to`.
pub fn replace_chars(s: &[char], from: &[char], to: &[char]) -> (out: Vec<char>)
    ensures
        out@ == replace_all(s@, from@, to@),
{
    let mut out: Vec<char> = Vec::new();
    if from.len() == 0 {
        let mut k: usize = 0;
        while k < s.len()
            invariant
                k <= s@.len(),
                out@ =~= s@.take(k as int),
            decreases s@.len() - k,
        {
            out.push(s[k]);
            k = k + 1;
        }
        assert(s@.take(s@.len() as int) =~= s@);
        return out;
    }
    let mut i: usize = 0;
    assert(s@.skip(0) =~= s@);
    while i < s.len()
        invariant
            from@.len() > 0,
            i <= s@.len(),
            replace_all(s@, from@, to@) == out@ + replace_all(s@.skip(i as int), from@, to@),
        decreases s@.len() - i,
    {
        let ghost rest = s@.skip(i as int);
        if occurs_at(s, i, from) {
            let ghost out0 = out@;
            let mut k: usize = 0;
            while k < to.len()
                invariant
                    k <= to@.len(),
                    out@ =~= out0 + to@.take(k as int),
                decreases to@.len() - k,
            {
                out.push(to[k]);
                k = k + 1;
            }
            assert(to@.take(to@.len() as int) =~= to@);
            assert(rest.skip(from@.len() as int) =~= s@.skip(i + from@.len()));
            assert(out0 + (to@ + replace_all(rest.skip(from@.len() as int), from@, to@)) =~= out@
                + replace_all(rest.skip(from@.len() as int), from@, to@));
            i = i + from.len();
        } else {
            if s.len() - i >= from.len() {
                assert(rest.take(from@.len() as int) != from@);
                assert(rest.skip(1) =~= s@.skip(i + 1));
                assert(out@ + (seq![rest[0]] + replace_all(rest.skip(1), from@, to@)) =~= out@.push(
                    s@[i as int],
                ) + replace_all(rest.skip(1), from@, to@));
                out.push(s[i]);
                i = i + 1;
            } else {
                let ghost out0 = out@;
                let mut k: usize = i;
                while k < s.len()
                    invariant
                        i <= k <= s@.len(),
                        out@ =~= out0 + s@.subrange(i as int, k as int),
                    decreases s@.len() - k,
                {
                    out.push(s[k]);
                    k = k + 1;
                }
                assert(rest =~= s@.subrange(i as int, s@.len() as int));
                assert(s@.skip(s@.len() as int) =~= seq![]);
                i = s.len();
            }
        }
    }
    assert(s@.skip(s@.len() as int) =~= seq![]);
    assert(out@ + seq![] =~= out@);
    out
}

/// The `i`th renaming, as (upstream, ours).
fn family(i: usize) -> (r: (&'static str, &'static str))
    ensures
        r.0@ == family_from(i as int),
        r.1@ == family_to(i as int),
{
    if i == 0 {
        ("Geist Pixel Circle", "Zen Pixel Circle")
    } else if i == 1 {
        ("Geist Pixel Triangle", "Zen Pixel Triangle")
    } else if i == 2 {
        ("Geist Pixel Square", "Zen Pixel Square")
    } else if i == 3 {
        ("Geist Pixel Grid", "Zen Pixel Grid")
    } else if i == 4 {
        ("Geist Pixel Line", "Zen Pixel Line")
    } else if i == 5 {
        ("Geist Mono", "Zen Mono")
    } else {
        ("Geist", "Zen")
    }
}

/// `s` with every upstream family name replaced by ours, longest name first.
pub fn rename_chars(s: &[char]) -> (out: Vec<char>)
    ensures
        out@ == spec_renamed(s@),
{
    let mut cur: Vec<char> = vstd::slice::slice_to_vec(s);
    let mut i: usize = 0;
    while i < 7
        invariant
            i <= 7,
            cur@ == rename_passes(s@, i as nat),
        decreases 7 - i,
    {
        let (from, to) = family(i);
        let from_chars = str_chars(from);
        let to_chars = str_chars(to);
        cur = replace_chars(&cur, &from_chars, &to_chars);
        i = i + 1;
    }
    cur
}

/// `text` with every upstream family name replaced by ours.
pub fn renamed(text: &str) -> (r: String)
    ensures
        r@ == spec_renamed(text@),
{
    let chars = str_chars(text);
    let out = rename_chars(&chars);
    string_from_chars(&out)
}

/// The text of a record that names the maker rather than the family, or `None`
/// for every other record.
pub fn maker(id: u16) -> (r: Option<&'static str>)
    ensures
        r is Some == maker_text(id) is Some,
        r matches Some(t) ==> maker_text(id) == Some(t@),
{
    if id == 8 || id == 9 {
        Some(MAKER)
    } else if id == 11 || id == 12 {
        Some(HOME)
    } else {
        None
    }
}

// ---------------------------------------------------------------------------
// What holds of the byte forms.
// ---------------------------------------------------------------------------

/// Encoding a string one character at a time from the front.
proof fn lemma_utf16_encode_front(t: Seq<char>)
    requires
        t.len() > 0,
    ensures
        utf16_encode(t) == utf16_char(t[0]) + utf16_encode(t.skip(1)),
    decreases t.len(),
{
    if t.len() == 1 {
        assert(t.drop_last() =~= seq![]);
        assert(t.skip(1) =~= seq![]);
        assert(utf16_encode(t.skip(1)) =~= seq![]);
        assert(utf16_encode(t.drop_last()) =~= seq![]);
        assert(utf16_encode(t) =~= utf16_char(t[0]));
    } else {
        lemma_utf16_encode_front(t.drop_last());
        assert(t.drop_last().skip(1) =~= t.skip(1).drop_last());
        assert(t.skip(1).last() == t.last());
        assert(utf16_encode(t) =~= utf16_char(t[0]) + utf16_encode(t.skip(1)));
    }
}

/// Two bytes written for `v` read back as `v`.
proof fn lemma_u16_reads_back(v: int)
    requires
        0 <= v < 65536,
    ensures
        spec_be16(u16_bytes(v), 0) == v,
{
    let w = v as u16;
    assert((w / 256) % 256 * 256 + w % 256 == w) by (bit_vector);
}

/// One character's UTF-16 bytes, followed by anything, decode to that
/// character followed by whatever the rest decodes to.
proof fn lemma_utf16_char_decodes(c: char, rest: Seq<u8>)
    ensures
        utf16_decode(utf16_char(c) + rest) == prepend(c, utf16_decode(rest)),
{
    vstd::utf8::char_is_scalar(c);
    let v = c as u32 as int;
    let all = utf16_char(c) + rest;
    if v < 0x10000 {
        lemma_u16_reads_back(v);
        assert(spec_be16(all, 0) == spec_be16(u16_bytes(v), 0));
        assert(all.skip(2) =~= rest);
        vstd::utf8::char_u32_cast(c, c as u32);
    } else {
        let w = v - 0x10000;
        let hi = 0xD800 + w / 1024;
        let lo = 0xDC00 + w % 1024;
        assert(0 <= w < 0x100000);
        assert(0xD800 <= hi <= 0xDBFF);
        assert(0xDC00 <= lo <= 0xDFFF);
        lemma_u16_reads_back(hi);
        lemma_u16_reads_back(lo);
        assert(spec_be16(all, 0) == spec_be16(u16_bytes(hi), 0));
        assert(spec_be16(all, 2) == spec_be16(u16_bytes(lo), 0));
        assert(all.skip(4) =~= rest);
        vstd::arithmetic::div_mod::lemma_fundamental_div_mod(w, 1024);
        assert(0x10000 + (hi - 0xD800) * 1024 + (lo - 0xDC00) == v);
        vstd::utf8::char_u32_cast(c, c as u32);
    }
}

/// UTF-16 bytes of any string decode back to that string.
pub proof fn law_utf16_roundtrip(t: Seq<char>)
    ensures
        utf16_decode(utf16_encode(t)) == Some(t),
    decreases t.len(),
{
    if t.len() == 0 {
        assert(utf16_encode(t) =~= seq![]);
    } else {
        lemma_utf16_encode_front(t);
        law_utf16_roundtrip(t.skip(1));
        lemma_utf16_char_decodes(t[0], utf16_encode(t.skip(1)));
        assert(seq![t[0]] + t.skip(1) =~= t);
    }
}

/// Is every character of `t` one byte wide?
pub open spec fn is_latin1(t: Seq<char>) -> bool {
    forall|k: int| 0 <= k < t.len() ==> (#[trigger] t[k] as u32) < 256
}

/// One-byte forms of a string whose characters all fit a byte decode back to it.
pub proof fn law_latin1_roundtrip(t: Seq<char>)
    requires
        is_latin1(t),
    ensures
        latin1_decode(latin1_encode(t)) == t,
{
    assert forall|k: int| 0 <= k < t.len() implies #[trigger] latin1_decode(latin1_encode(t))[k]
        == t[k] by {
        let c = t[k];
        assert((c as u32) < 256);
        let b = (c as u32 % 256) as u8;
        assert(b == c as u32);
        vstd::utf8::char_u32_cast(c, c as u32);
        assert((b as char) as u32 == b);
    }
    assert(latin1_decode(latin1_encode(t)) =~= t);
}

/// Latin-1 bytes decode to one-byte characters.
pub proof fn lemma_latin1_decode_narrow(raw: Seq<u8>)
    ensures
        is_latin1(latin1_decode(raw)),
{
}

/// A record's text survives being written and read back, on platform 3 always
/// and elsewhere when every character fits a byte.
pub proof fn law_record_text_roundtrip(platform: u16, t: Seq<char>)
    requires
        platform == 3 || is_latin1(t),
    ensures
        spec_decode(platform, spec_encode(platform, t)) == Some(t),
{
    if platform == 3 {
        law_utf16_roundtrip(t);
    } else {
        law_latin1_roundtrip(t);
    }
}

/// The two bytes of a big-endian u16 are written back as they were read.
proof fn lemma_be16_rewritten(raw: Seq<u8>, at: int)
    requires
        0 <= at,
        at + 2 <= raw.len(),
    ensures
        u16_bytes(spec_be16(raw, at)) == raw.subrange(at, at + 2),
{
    let x = raw[at] as int;
    let y = raw[at + 1] as int;
    vstd::arithmetic::div_mod::lemma_fundamental_div_mod_converse(x * 256 + y, 256, x, y);
    vstd::arithmetic::div_mod::lemma_small_mod(x as nat, 256);
    assert(u16_bytes(spec_be16(raw, at)) =~= raw.subrange(at, at + 2));
}

/// Bytes that decode as UTF-16 are exactly the UTF-16 bytes of what they
/// decode to.
pub proof fn law_utf16_bytes_roundtrip(raw: Seq<u8>)
    requires
        utf16_decode(raw) is Some,
    ensures
        utf16_encode(utf16_decode(raw)->0) == raw,
    decreases raw.len(),
{
    if raw.len() == 0 {
        assert(utf16_encode(seq![]) =~= raw);
    } else {
        let t = utf16_decode(raw)->0;
        let u = spec_be16(raw, 0);
        lemma_be16_rewritten(raw, 0);
        if u < 0xD800 || u > 0xDFFF {
            let rest = raw.skip(2);
            law_utf16_bytes_roundtrip(rest);
            assert((u as char) as u32 == u);
            assert(utf16_char(u as char) == u16_bytes(u));
            lemma_utf16_encode_front(t);
            assert(t.skip(1) =~= utf16_decode(rest)->0);
            assert(raw =~= raw.subrange(0, 2) + rest);
        } else {
            let lo = spec_be16(raw, 2);
            let rest = raw.skip(4);
            law_utf16_bytes_roundtrip(rest);
            lemma_be16_rewritten(raw, 2);
            let w = (u - 0xD800) * 1024 + (lo - 0xDC00);
            let v = 0x10000 + w;
            assert(0 <= w < 0x100000);
            assert((v as char) as u32 == v);
            vstd::arithmetic::div_mod::lemma_fundamental_div_mod_converse(
                w,
                1024,
                u - 0xD800,
                lo - 0xDC00,
            );
            assert(utf16_char(v as char) == u16_bytes(u) + u16_bytes(lo));
            lemma_utf16_encode_front(t);
            assert(t.skip(1) =~= utf16_decode(rest)->0);
            assert(raw =~= raw.subrange(0, 2) + raw.subrange(2, 4) + rest);
        }
    }
}

/// A record's stored bytes, wherever they decode as its platform's text, are
/// exactly the bytes that text is stored as: re-encoding what was read gives
/// back what was there.
pub proof fn law_record_bytes_roundtrip(platform: u16, raw: Seq<u8>)
    requires
        spec_decode(platform, raw) is Some,
    ensures
        spec_encode(platform, spec_decode(platform, raw)->0) == raw,
{
    if platform == 3 {
        law_utf16_bytes_roundtrip(raw);
    } else {
        assert forall|k: int| 0 <= k < raw.len() implies #[trigger] latin1_encode(
            latin1_decode(raw),
        )[k] == raw[k] by {
            let b = raw[k];
            assert(((b as char) as u32) == b);
        }
        assert(latin1_encode(latin1_decode(raw)) =~= raw);
    }
}

// ---------------------------------------------------------------------------
// What holds of the renaming.
// ---------------------------------------------------------------------------

/// Does `w` occur in `s` at `p`?
pub open spec fn occurs(s: Seq<char>, p: int, w: Seq<char>) -> bool {
    0 <= p && p + w.len() <= s.len() && s.subrange(p, p + w.len()) == w
}

/// Replacing a string that does not occur changes nothing.
proof fn lemma_replace_absent(s: Seq<char>, from: Seq<char>, to: Seq<char>)
    requires
        from.len() > 0,
        forall|p: int| !#[trigger] occurs(s, p, from),
    ensures
        replace_all(s, from, to) == s,
    decreases s.len(),
{
    if s.len() >= from.len() {
        assert(s.take(from.len() as int) =~= s.subrange(0, from.len() as int));
        assert(!occurs(s, 0, from));
        assert forall|p: int| !#[trigger] occurs(s.skip(1), p, from) by {
            if occurs(s.skip(1), p, from) {
                assert(s.skip(1).subrange(p, p + from.len()) =~= s.subrange(p + 1, p + 1 + from.len()));
                assert(occurs(s, p + 1, from));
            }
        }
        lemma_replace_absent(s.skip(1), from, to);
        assert(seq![s[0]] + s.skip(1) =~= s);
    }
}

/// A prefix of a replacement's output in which the replacement's first
/// character never appears was copied from the input as it stands.
proof fn lemma_prefix_copied(s: Seq<char>, from: Seq<char>, to: Seq<char>, w: Seq<char>)
    requires
        from.len() > 0,
        to.len() > 0,
        w.len() <= replace_all(s, from, to).len(),
        replace_all(s, from, to).take(w.len() as int) == w,
        forall|k: int| 0 <= k < w.len() ==> #[trigger] w[k] != to[0],
    ensures
        w.len() <= s.len(),
        s.take(w.len() as int) == w,
    decreases w.len(),
{
    let o = replace_all(s, from, to);
    if w.len() > 0 && s.len() >= from.len() {
        if s.take(from.len() as int) == from {
            assert(o[0] == to[0]);
            assert(w[0] == o.take(w.len() as int)[0]);
        } else {
            let r = replace_all(s.skip(1), from, to);
            assert(o == seq![s[0]] + r);
            assert(r.take(w.len() - 1) =~= w.skip(1)) by {
                assert forall|k: int| 0 <= k < w.len() - 1 implies r.take(w.len() - 1)[k] == w.skip(
                    1,
                )[k] by {
                    assert(o.take(w.len() as int)[k + 1] == w[k + 1]);
                }
            }
            lemma_prefix_copied(s.skip(1), from, to, w.skip(1));
            assert(o.take(w.len() as int)[0] == w[0]);
            assert(s.take(w.len() as int) =~= w) by {
                assert forall|k: int| 0 <= k < w.len() implies s.take(w.len() as int)[k] == w[k] by {
                    if k > 0 {
                        assert(s.skip(1).take(w.len() - 1)[k - 1] == w.skip(1)[k - 1]);
                    }
                }
            }
        }
    } else if w.len() > 0 {
        assert(s.take(w.len() as int) =~= w);
    } else {
        assert(s.take(0) =~= w);
    }
}

/// When no character of `to` starts `from` and no character of `from` starts
/// `to`, nothing the replacement writes can complete an occurrence of `from`:
/// the output holds none.
proof fn lemma_replace_leaves_none(s: Seq<char>, from: Seq<char>, to: Seq<char>, p: int)
    requires
        from.len() > 0,
        to.len() > 0,
        forall|k: int| 0 <= k < to.len() ==> #[trigger] to[k] != from[0],
        forall|k: int| 0 <= k < from.len() ==> #[trigger] from[k] != to[0],
    ensures
        !occurs(replace_all(s, from, to), p, from),
    decreases s.len(),
{
    let o = replace_all(s, from, to);
    if s.len() >= from.len() && occurs(o, p, from) {
        if s.take(from.len() as int) == from {
            let r = replace_all(s.skip(from.len() as int), from, to);
            assert(o == to + r);
            if p >= to.len() {
                lemma_replace_leaves_none(s.skip(from.len() as int), from, to, p - to.len());
                assert(r.subrange(p - to.len(), p - to.len() + from.len()) =~= o.subrange(
                    p,
                    p + from.len(),
                ));
            } else {
                assert(o[p] == to[p]);
                assert(o.subrange(p, p + from.len())[0] == from[0]);
            }
        } else {
            let r = replace_all(s.skip(1), from, to);
            assert(o == seq![s[0]] + r);
            if p >= 1 {
                lemma_replace_leaves_none(s.skip(1), from, to, p - 1);
                assert(r.subrange(p - 1, p - 1 + from.len()) =~= o.subrange(p, p + from.len()));
            } else {
                let w = from.skip(1);
                assert(r.take(w.len() as int) =~= w) by {
                    assert forall|k: int| 0 <= k < w.len() implies r.take(w.len() as int)[k] == w[k] by {
                        assert(o.subrange(0, from.len() as int)[k + 1] == from[k + 1]);
                    }
                }
                lemma_prefix_copied(s.skip(1), from, to, w);
                assert(s.take(from.len() as int) =~= from) by {
                    assert forall|k: int| 0 <= k < from.len() implies s.take(from.len() as int)[k]
                        == from[k] by {
                        if k == 0 {
                            assert(o.subrange(0, from.len() as int)[0] == from[0]);
                        } else {
                            assert(s.skip(1).take(w.len() as int)[k - 1] == w[k - 1]);
                        }
                    }
                }
            }
        }
    }
}

/// Every upstream family name starts with "Geist", and each replacement starts
/// with "Zen".
proof fn lemma_family_literals()
    ensures
        forall|i: int| 0 <= i < 7 ==> (#[trigger] family_from(i)).len() >= 5
            && family_from(i).take(5) == "Geist"@,
        forall|i: int| 0 <= i < 7 ==> is_latin1(#[trigger] family_to(i)),
        family_from(6) == "Geist"@,
        family_to(6) == "Zen"@,
        "Geist"@ == seq!['G', 'e', 'i', 's', 't'],
        "Zen"@ == seq!['Z', 'e', 'n'],
        is_latin1(MAKER@),
        is_latin1(HOME@),
{
    reveal_strlit("Geist Pixel Circle");
    reveal_strlit("Geist Pixel Triangle");
    reveal_strlit("Geist Pixel Square");
    reveal_strlit("Geist Pixel Grid");
    reveal_strlit("Geist Pixel Line");
    reveal_strlit("Geist Mono");
    reveal_strlit("Geist");
    reveal_strlit("Zen Pixel Circle");
    reveal_strlit("Zen Pixel Triangle");
    reveal_strlit("Zen Pixel Square");
    reveal_strlit("Zen Pixel Grid");
    reveal_strlit("Zen Pixel Line");
    reveal_strlit("Zen Mono");
    reveal_strlit("Zen");
    reveal_strlit("Hanzo AI, Inc.");
    reveal_strlit("https://hanzo.ai");
    assert("Geist"@ =~= seq!['G', 'e', 'i', 's', 't']);
    assert("Zen"@ =~= seq!['Z', 'e', 'n']);
    assert forall|i: int| 0 <= i < 7 implies (#[trigger] family_from(i)).len() >= 5
        && family_from(i).take(5) == "Geist"@ by {
        assert(family_from(i).take(5) =~= "Geist"@);
    }
}

/// Renaming leaves no "Geist" behind.
proof fn lemma_renamed_has_no_upstream(s: Seq<char>, p: int)
    ensures
        !occurs(spec_renamed(s), p, "Geist"@),
{
    lemma_family_literals();
    let g = "Geist"@;
    let z = "Zen"@;
    assert(forall|k: int| 0 <= k < z.len() ==> #[trigger] z[k] != g[0]);
    assert(forall|k: int| 0 <= k < g.len() ==> #[trigger] g[k] != z[0]);
    lemma_replace_leaves_none(rename_passes(s, 6), g, z, p);
}

/// A string with no "Geist" in it is already renamed.
proof fn lemma_rename_passes_fixed(u: Seq<char>, n: nat)
    requires
        n <= 7,
        forall|p: int| !#[trigger] occurs(u, p, "Geist"@),
    ensures
        rename_passes(u, n) == u,
    decreases n,
{
    if n > 0 {
        lemma_rename_passes_fixed(u, (n - 1) as nat);
        lemma_family_literals();
        let f = family_from(n - 1);
        assert forall|p: int| !#[trigger] occurs(u, p, f) by {
            if occurs(u, p, f) {
                assert(u.subrange(p, p + 5) =~= f.take(5));
                assert(occurs(u, p, "Geist"@));
            }
        }
        lemma_replace_absent(u, f, family_to(n - 1));
    }
}

/// Renaming twice is renaming once.
pub proof fn law_renamed_idempotent(s: Seq<char>)
    ensures
        spec_renamed(spec_renamed(s)) == spec_renamed(s),
{
    let u = spec_renamed(s);
    assert forall|p: int| !#[trigger] occurs(u, p, "Geist"@) by {
        lemma_renamed_has_no_upstream(s, p);
    }
    lemma_rename_passes_fixed(u, 7);
}

/// What follows "Geist" in upstream family name `i`.
pub open spec fn family_suffix(i: int) -> Seq<char> {
    family_from(i).skip(5)
}

/// Can no occurrence of `from` start inside `w`, whatever follows it? So it
/// is where `w` differs from `from`, at each place, in the first character or
/// the second.
pub open spec fn starts_nothing(w: Seq<char>, from: Seq<char>) -> bool {
    forall|i: int|
        0 <= i < w.len() ==> #[trigger] w[i] != from[0] || (i + 1 < w.len() && w[i + 1] != from[1])
}

/// Each family pair but the last maps "Geist" and a suffix to "Zen" and the
/// same suffix, and no "Geist" can start inside a suffix.
proof fn lemma_family_suffixes()
    ensures
        forall|i: int|
            0 <= i < 6 ==> (#[trigger] family_from(i)) == "Geist"@ + family_suffix(i)
                && family_to(i) == "Zen"@ + family_suffix(i),
        forall|i: int| 0 <= i < 6 ==> starts_nothing(#[trigger] family_suffix(i), "Geist"@),
{
    lemma_family_literals();
    reveal_strlit("Zen Pixel Circle");
    reveal_strlit("Zen Pixel Triangle");
    reveal_strlit("Zen Pixel Square");
    reveal_strlit("Zen Pixel Grid");
    reveal_strlit("Zen Pixel Line");
    reveal_strlit("Zen Mono");
    reveal_strlit("Geist Pixel Circle");
    reveal_strlit("Geist Pixel Triangle");
    reveal_strlit("Geist Pixel Square");
    reveal_strlit("Geist Pixel Grid");
    reveal_strlit("Geist Pixel Line");
    reveal_strlit("Geist Mono");
    assert forall|i: int| 0 <= i < 6 implies (#[trigger] family_from(i)) == "Geist"@
        + family_suffix(i) && family_to(i) == "Zen"@ + family_suffix(i) by {
        assert(family_from(i) =~= "Geist"@ + family_suffix(i));
        assert(family_to(i) =~= "Zen"@ + family_suffix(i));
    }
    assert forall|i: int| 0 <= i < 6 implies starts_nothing(#[trigger] family_suffix(i), "Geist"@) by {
        let x = family_suffix(i);
        if i == 0 {
            assert(x =~= seq![' ', 'P', 'i', 'x', 'e', 'l', ' ', 'C', 'i', 'r', 'c', 'l', 'e']);
        } else if i == 1 {
            assert(x =~= seq![' ', 'P', 'i', 'x', 'e', 'l', ' ', 'T', 'r', 'i', 'a', 'n', 'g', 'l', 'e']);
        } else if i == 2 {
            assert(x =~= seq![' ', 'P', 'i', 'x', 'e', 'l', ' ', 'S', 'q', 'u', 'a', 'r', 'e']);
        } else if i == 3 {
            assert(x =~= seq![' ', 'P', 'i', 'x', 'e', 'l', ' ', 'G', 'r', 'i', 'd']);
        } else if i == 4 {
            assert(x =~= seq![' ', 'P', 'i', 'x', 'e', 'l', ' ', 'L', 'i', 'n', 'e']);
        } else {
            assert(x =~= seq![' ', 'M', 'o', 'n', 'o']);
        }
    }
}

/// Characters none of which can start `from` are copied through a
/// replacement as they stand.
proof fn lemma_replace_passes_over(w: Seq<char>, y: Seq<char>, from: Seq<char>, to: Seq<char>)
    requires
        from.len() >= 2,
        starts_nothing(w, from),
    ensures
        replace_all(w + y, from, to) == w + replace_all(y, from, to),
    decreases w.len(),
{
    let s = w + y;
    if w.len() == 0 {
        assert(s =~= y);
    } else if s.len() >= from.len() {
        assert(s.take(from.len() as int) != from) by {
            assert(w[0] != from[0] || (1 < w.len() && w[1] != from[1]));
            if w[0] == from[0] {
                assert(s.take(from.len() as int)[1] == w[1]);
            } else {
                assert(s.take(from.len() as int)[0] == w[0]);
            }
        }
        assert(starts_nothing(w.skip(1), from)) by {
            assert forall|i: int| 0 <= i < w.skip(1).len() implies #[trigger] w.skip(1)[i]
                != from[0] || (i + 1 < w.skip(1).len() && w.skip(1)[i + 1] != from[1]) by {
                assert(w[i + 1] != from[0] || (i + 2 < w.len() && w[i + 2] != from[1]));
            }
        }
        assert(s.skip(1) =~= w.skip(1) + y);
        lemma_replace_passes_over(w.skip(1), y, from, to);
        assert(seq![s[0]] + (w.skip(1) + replace_all(y, from, to)) =~= w + replace_all(
            y,
            from,
            to,
        ));
    }
}

/// A replacement's output starts with its input's first character, or with
/// the replacement's.
proof fn lemma_replace_first(y: Seq<char>, from: Seq<char>, to: Seq<char>)
    requires
        from.len() > 0,
        to.len() > 0,
        y.len() > 0,
    ensures
        replace_all(y, from, to).len() > 0,
        replace_all(y, from, to)[0] == y[0] || replace_all(y, from, to)[0] == to[0],
{
}

/// A string that does not start with `from` keeps its first character and has
/// the rest replaced.
proof fn lemma_replace_step(c: char, y: Seq<char>, from: Seq<char>, to: Seq<char>)
    requires
        from.len() > 0,
        !((seq![c] + y).len() >= from.len() && (seq![c] + y).take(from.len() as int) == from),
    ensures
        replace_all(seq![c] + y, from, to) == seq![c] + replace_all(y, from, to),
{
    let s = seq![c] + y;
    assert(s.skip(1) =~= y);
    if s.len() < from.len() {
        assert(s =~= seq![c] + y);
    }
}

/// Replacing "Geist" followed by `x` with "Zen" followed by `x`, where `x`
/// holds no 'G', does nothing that replacing "Geist" with "Zen" afterwards
/// would not do.
proof fn lemma_suffixed_pass_absorbed(s: Seq<char>, x: Seq<char>)
    requires
        starts_nothing(x, seq!['G', 'e', 'i', 's', 't']),
    ensures
        replace_all(
            replace_all(s, seq!['G', 'e', 'i', 's', 't'] + x, seq!['Z', 'e', 'n'] + x),
            seq!['G', 'e', 'i', 's', 't'],
            seq!['Z', 'e', 'n'],
        ) == replace_all(s, seq!['G', 'e', 'i', 's', 't'], seq!['Z', 'e', 'n']),
    decreases s.len(),
{
    let g = seq!['G', 'e', 'i', 's', 't'];
    let z = seq!['Z', 'e', 'n'];
    let gx = g + x;
    let zx = z + x;
    let inner = replace_all(s, gx, zx);
    assert(gx.len() >= 5 && gx[0] == 'G' && gx[1] == 'e');
    assert(starts_nothing(zx, g)) by {
        assert forall|i: int| 0 <= i < zx.len() implies #[trigger] zx[i] != g[0] || (i + 1
            < zx.len() && zx[i + 1] != g[1]) by {
            if i >= 3 {
                assert(zx[i] == x[i - 3]);
                assert(x[i - 3] != g[0] || (i - 2 < x.len() && x[i - 2] != g[1]));
                if i - 2 < x.len() {
                    assert(zx[i + 1] == x[i - 2]);
                }
            }
        }
    }
    if s.len() < 5 {
        assert(inner == s);
    } else if s.take(5) == g {
        if s.len() >= gx.len() && s.take(gx.len() as int) == gx {
            let rest = s.skip(gx.len() as int);
            assert(inner == zx + replace_all(rest, gx, zx));
            lemma_suffixed_pass_absorbed(rest, x);
            lemma_replace_passes_over(zx, replace_all(rest, gx, zx), g, z);
            assert(s =~= s.take(gx.len() as int) + rest);
            assert((gx + rest).skip(5) =~= x + rest);
            assert(s.skip(5) =~= x + rest);
            lemma_replace_passes_over(x, rest, g, z);
            assert(replace_all(s, g, z) == z + replace_all(s.skip(5), g, z));
            assert(zx + replace_all(rest, g, z) =~= z + (x + replace_all(rest, g, z)));
        } else {
            let e = seq!['e', 'i', 's', 't'];
            assert(starts_nothing(e, gx));
            assert(s.skip(1) =~= e + s.skip(5));
            lemma_replace_passes_over(e, s.skip(5), gx, zx);
            assert(inner =~= g + replace_all(s.skip(5), gx, zx));
            assert((g + replace_all(s.skip(5), gx, zx)).take(5) =~= g);
            assert((g + replace_all(s.skip(5), gx, zx)).skip(5) =~= replace_all(s.skip(5), gx, zx));
            lemma_suffixed_pass_absorbed(s.skip(5), x);
        }
    } else {
        assert(!(s.len() >= gx.len() && s.take(gx.len() as int) == gx)) by {
            if s.len() >= gx.len() && s.take(gx.len() as int) == gx {
                assert(s.take(5) =~= gx.take(5));
                assert(gx.take(5) =~= g);
            }
        }
        let r = replace_all(s.skip(1), gx, zx);
        assert(inner == seq![s[0]] + r);
        lemma_suffixed_pass_absorbed(s.skip(1), x);
        if s[0] != 'G' {
            assert(starts_nothing(seq![s[0]], g));
            lemma_replace_passes_over(seq![s[0]], r, g, z);
        } else {
            let k: int = if s[1] != 'e' {
                1
            } else if s[2] != 'i' {
                2
            } else if s[3] != 's' {
                3
            } else {
                4
            };
            assert(s[k] != g[k]) by {
                if k == 4 {
                    assert(s.take(5) != g);
                    assert(s.take(5) =~= seq![s[0], s[1], s[2], s[3], s[4]]);
                }
            }
            let e = g.subrange(1, k);
            assert(starts_nothing(e, gx));
            assert(s.skip(1) =~= e + s.skip(k));
            lemma_replace_passes_over(e, s.skip(k), gx, zx);
            lemma_replace_first(s.skip(k), gx, zx);
            let t = seq![s[0]] + r;
            assert(t[k] == replace_all(s.skip(k), gx, zx)[0]);
            assert(t[k] != g[k]);
            assert(!(t.len() >= 5 && t.take(5) == g)) by {
                if t.len() >= 5 && t.take(5) == g {
                    assert(t.take(5)[k] == t[k]);
                }
            }
            lemma_replace_step(s[0], r, g, z);
        }
        lemma_replace_step(s[0], s.skip(1), g, z);
        assert(seq![s[0]] + s.skip(1) =~= s);
    }
}

/// The first `n` renamings, followed by replacing "Geist" with "Zen", come to
/// replacing "Geist" with "Zen" alone.
proof fn lemma_passes_absorbed(s: Seq<char>, n: nat)
    requires
        n <= 6,
    ensures
        replace_all(rename_passes(s, n), "Geist"@, "Zen"@) == replace_all(s, "Geist"@, "Zen"@),
    decreases n,
{
    lemma_family_literals();
    if n > 0 {
        lemma_passes_absorbed(s, (n - 1) as nat);
        lemma_family_suffixes();
        let x = family_suffix(n - 1);
        assert(starts_nothing(x, "Geist"@));
        lemma_suffixed_pass_absorbed(rename_passes(s, (n - 1) as nat), x);
    }
}

/// Renaming replaces every "Geist" with "Zen", leftmost first, and does
/// nothing else: each family pair maps "Geist" and a suffix to "Zen" and the
/// same suffix.
pub proof fn law_renamed_replaces_geist(s: Seq<char>)
    ensures
        spec_renamed(s) == replace_all(s, "Geist"@, "Zen"@),
{
    lemma_family_literals();
    lemma_passes_absorbed(s, 6);
}

/// Replacing with a one-byte string keeps a one-byte string one-byte.
proof fn lemma_replace_latin1(s: Seq<char>, from: Seq<char>, to: Seq<char>)
    requires
        is_latin1(s),
        is_latin1(to),
    ensures
        is_latin1(replace_all(s, from, to)),
    decreases s.len(),
{
    if from.len() > 0 && s.len() >= from.len() {
        if s.take(from.len() as int) == from {
            lemma_replace_latin1(s.skip(from.len() as int), from, to);
            let r = replace_all(s.skip(from.len() as int), from, to);
            assert forall|k: int| 0 <= k < (to + r).len() implies ((#[trigger] (to + r)[k]) as u32)
                < 256 by {
                if k >= to.len() {
                    assert((to + r)[k] == r[k - to.len()]);
                }
            }
        } else {
            lemma_replace_latin1(s.skip(1), from, to);
            let r = replace_all(s.skip(1), from, to);
            assert forall|k: int| 0 <= k < (seq![s[0]] + r).len() implies ((#[trigger] (seq![s[0]]
                + r)[k]) as u32) < 256 by {
                if k >= 1 {
                    assert((seq![s[0]] + r)[k] == r[k - 1]);
                }
            }
        }
    }
}

/// Renaming a one-byte string gives a one-byte string.
pub proof fn lemma_renamed_latin1(s: Seq<char>, n: nat)
    requires
        is_latin1(s),
        n <= 7,
    ensures
        is_latin1(rename_passes(s, n)),
    decreases n,
{
    if n > 0 {
        lemma_renamed_latin1(s, (n - 1) as nat);
        lemma_family_literals();
        lemma_replace_latin1(rename_passes(s, (n - 1) as nat), family_from(n - 1), family_to(n - 1));
    }
}

/// The maker's strings are one-byte strings.
pub proof fn lemma_maker_latin1(id: u16)
    ensures
        maker_text(id) matches Some(t) ==> is_latin1(t),
{
    lemma_family_literals();
}

} // verus!
