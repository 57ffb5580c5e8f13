//! The parts of cutting a static instance that are bytes and strings: the
//! fields patched into copied tables, the horizontal metrics, and the names the
//! cut carries.
use vstd::prelude::*;
use vstd::string::*;
use crate::sfnt::{u16_bytes, push_u16};
use crate::name::write_at;
use crate::text::{str_chars, string_from_chars, same_chars};

verus! {

/// Why a cut failed.
pub struct Error(String);

impl View for Error {
    type V = Seq<char>;

    closed spec fn view(&self) -> Seq<char> {
        self.0@
    }
}

impl Error {
    /// What went wrong.
    pub fn message(&self) -> (r: &str)
        ensures
            r@ == self@,
    {
        self.0.as_str()
    }
}

/// An error carrying `message`.
pub fn err(message: &str) -> (e: Error)
    ensures
        e@ == message@,
{
    Error(String::from_str(message))
}

/// Overwrite a big-endian u16 at `offset`, if the table is long enough.
pub fn patch(table: &mut [u8], offset: usize, value: u16)
    ensures
        offset + 2 <= old(table)@.len() ==> final(table)@ == write_at(
            old(table)@,
            offset as int,
            u16_bytes(value as int),
        ),
        offset + 2 > old(table)@.len() ==> final(table)@ == old(table)@,
{
    let n = table.len();
    if offset <= n && n - offset >= 2 {
        table[offset] = (value / 256) as u8;
        table[offset + 1] = (value % 256) as u8;
        assert(table@ =~= write_at(old(table)@, offset as int, u16_bytes(value as int)));
    }
}

/// The 16 bits of `v` in two's complement.
pub open spec fn twos_complement(v: i16) -> int {
    if v < 0 {
        v + 65536
    } else {
        v as int
    }
}

/// The `hmtx` table: each glyph's advance and left side bearing, big-endian.
pub open spec fn spec_hmtx(advances: Seq<(u16, i16)>) -> Seq<u8>
    decreases advances.len(),
{
    if advances.len() == 0 {
        seq![]
    } else {
        spec_hmtx(advances.drop_last()) + u16_bytes(advances.last().0 as int) + u16_bytes(
            twos_complement(advances.last().1),
        )
    }
}

/// The `hmtx` table for these (advance, left side bearing) pairs.
pub fn hmtx(advances: &[(u16, i16)]) -> (out: Vec<u8>)
    ensures
        out@ == spec_hmtx(advances@),
{
    let mut out: Vec<u8> = Vec::new();
    let mut i: usize = 0;
    assert(advances@.take(0) =~= seq![]);
    while i < advances.len()
        invariant
            i <= advances@.len(),
            out@ == spec_hmtx(advances@.take(i as int)),
        decreases advances@.len() - i,
    {
        let (advance, left) = advances[i];
        push_u16(&mut out, advance);
        let bits = left as u16;
        assert(left < 0 ==> bits as i32 == left as i32 + 65536) by (bit_vector)
            requires
                bits == left as u16,
        ;
        assert(left >= 0 ==> bits as i32 == left as i32) by (bit_vector)
            requires
                bits == left as u16,
        ;
        push_u16(&mut out, bits);
        assert(advances@.take(i + 1).drop_last() =~= advances@.take(i as int));
        i = i + 1;
    }
    assert(advances@.take(advances@.len() as int) =~= advances@);
    out
}

/// Two bytes written for `v` read back, big-endian, as `v`.
proof fn lemma_u16_bytes_read_back(v: int)
    requires
        0 <= v < 65536,
    ensures
        u16_bytes(v).len() == 2,
        u16_bytes(v)[0] * 256 + u16_bytes(v)[1] == v,
{
    let w = v as u16;
    assert((w / 256) % 256 * 256 + w % 256 == w) by (bit_vector);
}

/// Each glyph's four bytes in an `hmtx` table read back as its pair: the
/// first two, big-endian unsigned, as the advance, and the last two,
/// big-endian two's complement, as the left side bearing.
pub proof fn law_hmtx_reads_back(advances: Seq<(u16, i16)>)
    ensures
        spec_hmtx(advances).len() == 4 * advances.len(),
        forall|k: int|
            0 <= k < advances.len() ==> {
                let out = spec_hmtx(advances);
                let bearing = out[4 * k + 2] * 256 + out[4 * k + 3];
                &&& out[4 * k] * 256 + out[4 * k + 1] == (#[trigger] advances[k]).0
                &&& (if bearing >= 32768 {
                    bearing - 65536
                } else {
                    bearing
                }) == advances[k].1
            },
    decreases advances.len(),
{
    if advances.len() > 0 {
        let front = advances.drop_last();
        law_hmtx_reads_back(front);
        let (advance, left) = advances.last();
        let bits = if left < 0 {
            left + 65536
        } else {
            left as int
        };
        lemma_u16_bytes_read_back(advance as int);
        lemma_u16_bytes_read_back(bits);
        let out = spec_hmtx(advances);
        let n: int = 4 * (front.len() as int);
        assert(out == spec_hmtx(front) + u16_bytes(advance as int) + u16_bytes(
            twos_complement(left),
        ));
        assert forall|k: int| 0 <= k < advances.len() implies {
            let bearing = out[4 * k + 2] * 256 + out[4 * k + 3];
            &&& out[4 * k] * 256 + out[4 * k + 1] == (#[trigger] advances[k]).0
            &&& (if bearing >= 32768 {
                bearing - 65536
            } else {
                bearing
            }) == advances[k].1
        } by {
            if k < front.len() {
                assert(advances[k] == front[k]);
                assert(out[4 * k] == spec_hmtx(front)[4 * k]);
                assert(out[4 * k + 1] == spec_hmtx(front)[4 * k + 1]);
                assert(out[4 * k + 2] == spec_hmtx(front)[4 * k + 2]);
                assert(out[4 * k + 3] == spec_hmtx(front)[4 * k + 3]);
            } else {
                assert(k == front.len());
                assert(out[n] == u16_bytes(advance as int)[0]);
                assert(out[n + 1] == u16_bytes(advance as int)[1]);
                assert(out[n + 2] == u16_bytes(bits)[0]);
                assert(out[n + 3] == u16_bytes(bits)[1]);
            }
        }
    }
}

/// The PostScript name keeps exactly the characters of the full name that are
/// ASCII digits or letters, '0'..='9', 'A'..='Z' and 'a'..='z', in order.
pub proof fn law_postscript_name_keeps_digits_and_letters(family: Seq<char>, style: Seq<char>)
    ensures
        postscript_name(family, style) == full_name(family, style).filter(
            |c: char| ('0' <= c && c <= '9') || ('A' <= c && c <= 'Z') || ('a' <= c && c <= 'z'),
        ),
{
    lemma_alnum_only_filters(full_name(family, style));
}

/// `alnum_only` keeps the ASCII digits and letters, in order.
proof fn lemma_alnum_only_filters(s: Seq<char>)
    ensures
        alnum_only(s) == s.filter(
            |c: char| ('0' <= c && c <= '9') || ('A' <= c && c <= 'Z') || ('a' <= c && c <= 'z'),
        ),
    decreases s.len(),
{
    reveal(Seq::filter);
    if s.len() > 0 {
        lemma_alnum_only_filters(s.drop_last());
    }
}

/// Is `c` an ASCII letter or digit?
pub open spec fn is_ascii_alnum(c: char) -> bool {
    ('0' <= c && c <= '9') || ('A' <= c && c <= 'Z') || ('a' <= c && c <= 'z')
}

/// The ASCII letters and digits of `s`, in order.
pub open spec fn alnum_only(s: Seq<char>) -> Seq<char>
    decreases s.len(),
{
    if s.len() == 0 {
        seq![]
    } else if is_ascii_alnum(s.last()) {
        alnum_only(s.drop_last()).push(s.last())
    } else {
        alnum_only(s.drop_last())
    }
}

/// The full name of a face: the family, and the style after a space unless
/// the style is "Regular".
pub open spec fn full_name(family: Seq<char>, style: Seq<char>) -> Seq<char> {
    if style == "Regular"@ {
        family
    } else {
        family + seq![' '] + style
    }
}

/// The PostScript name of a face: its full name's ASCII letters and digits.
pub open spec fn postscript_name(family: Seq<char>, style: Seq<char>) -> Seq<char> {
    alnum_only(full_name(family, style))
}

/// The records of a cut's `name` table, as (platformID, encodingID,
/// languageID, nameID, text), all filed under Windows, Unicode BMP, US
/// English: the copyright notice (0), family (1), subfamily (2), unique id
/// (3), full name (4), version (5) and PostScript name (6).
pub open spec fn spec_name_rows(family: Seq<char>, style: Seq<char>, notice: Seq<char>) -> Seq<
    (u16, u16, u16, u16, Seq<char>),
> {
    let ps = postscript_name(family, style);
    seq![
        (3u16, 1u16, 0x409u16, 0u16, notice),
        (3u16, 1u16, 0x409u16, 1u16, family),
        (3u16, 1u16, 0x409u16, 2u16, style),
        (3u16, 1u16, 0x409u16, 3u16, ps + ";HNZO"@),
        (3u16, 1u16, 0x409u16, 4u16, full_name(family, style)),
        (3u16, 1u16, 0x409u16, 5u16, "Version 1.000"@),
        (3u16, 1u16, 0x409u16, 6u16, ps),
    ]
}

/// A static cut's name records, field by field: seven records, nameIDs 0 to
/// 6 in order, every one filed under platform 3 (Windows), encoding 1
/// (Unicode BMP) and language 0x409 (US English); 0 is the notice, 1 the
/// family, 2 the style, 4 the family followed by a space and the style (the
/// family alone for "Regular"), 6 that full name's ASCII digits and letters,
/// 3 the PostScript name followed by ";HNZO", and 5 "Version 1.000".
pub proof fn law_name_rows(family: Seq<char>, style: Seq<char>, notice: Seq<char>)
    ensures
        ({
            let rows = spec_name_rows(family, style, notice);
            let full = if style == "Regular"@ {
                family
            } else {
                family + seq![' '] + style
            };
            let ps = full.filter(
                |c: char| ('0' <= c && c <= '9') || ('A' <= c && c <= 'Z') || ('a' <= c && c <= 'z'),
            );
            &&& rows.len() == 7
            &&& forall|k: int|
                0 <= k < 7 ==> (#[trigger] rows[k]).0 == 3 && rows[k].1 == 1 && rows[k].2 == 0x409
                    && rows[k].3 == k
            &&& rows[0].4 == notice
            &&& rows[1].4 == family
            &&& rows[2].4 == style
            &&& rows[3].4 == ps + ";HNZO"@
            &&& rows[4].4 == full
            &&& rows[5].4 == "Version 1.000"@
            &&& rows[6].4 == ps
        }),
{
    law_postscript_name_keeps_digits_and_letters(family, style);
}

/// The ASCII letters and digits of `s`.
fn keep_alnum(s: &[char]) -> (out: Vec<char>)
    ensures
        out@ == alnum_only(s@),
{
    let mut out: Vec<char> = Vec::new();
    let mut i: usize = 0;
    assert(s@.take(0) =~= seq![]);
    while i < s.len()
        invariant
            i <= s@.len(),
            out@ == alnum_only(s@.take(i as int)),
        decreases s@.len() - i,
    {
        let c = s[i];
        assert(s@.take(i + 1).drop_last() =~= s@.take(i as int));
        if ('0' <= c && c <= '9') || ('A' <= c && c <= 'Z') || ('a' <= c && c <= 'z') {
            out.push(c);
        }
        i = i + 1;
    }
    assert(s@.take(s@.len() as int) =~= s@);
    out
}

/// A string of these characters.
fn string_of(v: &Vec<char>) -> (s: String)
    ensures
        s@ == v@,
{
    string_from_chars(v.as_slice())
}

/// The records of a cut's `name` table: the required notice, the family, and
/// the names machines read, each as (platformID, encodingID, languageID,
/// nameID, text).
pub fn name_rows(family: &str, style: &str, notice: &str) -> (rows: Vec<(u16, u16, u16, u16, String)>)
    ensures
        rows.deep_view() == spec_name_rows(family@, style@, notice@),
{
    let family_chars = str_chars(family);
    let style_chars = str_chars(style);
    let regular = str_chars("Regular");
    let mut full: Vec<char> = vstd::slice::slice_to_vec(family_chars.as_slice());
    if !same_chars(style_chars.as_slice(), regular.as_slice()) {
        full.push(' ');
        let mut k: usize = 0;
        let ghost start = full@;
        while k < style_chars.len()
            invariant
                k <= style_chars@.len(),
                full@ =~= start + style_chars@.take(k as int),
            decreases style_chars@.len() - k,
        {
            full.push(style_chars[k]);
            k = k + 1;
        }
        assert(style_chars@.take(style_chars@.len() as int) =~= style_chars@);
        assert(full@ =~= family@ + seq![' '] + style@);
    }
    let ps = keep_alnum(full.as_slice());
    let mut unique = string_of(&ps);
    unique.append(";HNZO");
    let mut rows: Vec<(u16, u16, u16, u16, String)> = Vec::new();
    rows.push((3, 1, 0x409, 0, String::from_str(notice)));
    rows.push((3, 1, 0x409, 1, String::from_str(family)));
    rows.push((3, 1, 0x409, 2, String::from_str(style)));
    rows.push((3, 1, 0x409, 3, unique));
    rows.push((3, 1, 0x409, 4, string_of(&full)));
    rows.push((3, 1, 0x409, 5, String::from_str("Version 1.000")));
    rows.push((3, 1, 0x409, 6, string_of(&ps)));
    assert(rows.deep_view() =~= spec_name_rows(family@, style@, notice@));
    rows
}

} // verus!
