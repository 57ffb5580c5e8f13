//! Identity: who a built face says it is.
//!
//! A face's `name` table is relabelled rather than the face rebuilt. The records
//! that name the family are renamed from the upstream family to ours, the records
//! that name the maker are rewritten to name us, the OS/2 vendor tag is set to
//! ours, and every other table is carried across byte for byte. nameID 0, the
//! copyright notice, is never rewritten: the licence requires it in every copy.
use vstd::prelude::*;
use vstd::string::*;
use crate::sfnt::{spec_be16, spec_be32, u16_bytes, u32_bytes, spec_checksum, be16, be32, push_u16, push_u32, checksum};
pub use crate::text::{renamed, maker, MAKER, HOME};
use crate::text::{spec_decode, spec_encode, spec_renamed, maker_text, decode, encode, rename_chars, str_chars, same_chars};

verus! {

// ---------------------------------------------------------------------------
// The model.
// ---------------------------------------------------------------------------

/// One decoded name record: the four selector fields, and the string.
pub struct RecordModel {
    pub platform: u16,
    pub encoding: u16,
    pub language: u16,
    pub name: u16,
    pub text: Seq<char>,
}

/// How reading a `name` table ends.
pub enum NameParse {
    /// The records whose text decodes, in table order.
    Parsed(Seq<RecordModel>),
    /// A record's string runs past the end of the table.
    Overrun,
    /// The table is too short for its own header.
    Truncated,
}

/// The record header `i` of a `name` table starts here.
pub open spec fn record_at(i: int) -> int {
    6 + 12 * i
}

/// The first `n` records of the `name` table `name`.
pub open spec fn parse_records(name: Seq<u8>, n: nat) -> NameParse
    decreases n,
{
    if n == 0 {
        NameParse::Parsed(seq![])
    } else {
        match parse_records(name, (n - 1) as nat) {
            NameParse::Parsed(rs) => {
                let at = record_at(n - 1);
                if at + 12 > name.len() {
                    NameParse::Truncated
                } else {
                    let len = spec_be16(name, at + 8);
                    let from = spec_be16(name, 4) + spec_be16(name, at + 10);
                    if from + len > name.len() {
                        NameParse::Overrun
                    } else {
                        let platform = spec_be16(name, at) as u16;
                        match spec_decode(platform, name.subrange(from, from + len)) {
                            None => NameParse::Parsed(rs),
                            Some(t) => NameParse::Parsed(
                                rs.push(
                                    RecordModel {
                                        platform,
                                        encoding: spec_be16(name, at + 2) as u16,
                                        language: spec_be16(name, at + 4) as u16,
                                        name: spec_be16(name, at + 6) as u16,
                                        text: t,
                                    },
                                ),
                            ),
                        }
                    }
                }
            },
            other => other,
        }
    }
}

/// Every record of the `name` table `name`: its count is at offset 2 and its
/// string store at the offset given at 4.
pub open spec fn name_records(name: Seq<u8>) -> NameParse {
    if name.len() < 6 {
        NameParse::Truncated
    } else {
        parse_records(name, spec_be16(name, 2) as nat)
    }
}

/// The records carrying the family: family (1), unique id (3), full (4),
/// PostScript (6), typographic family (16), and the variable-instance names
/// (18, 21, 25).
pub open spec fn is_family_id(id: u16) -> bool {
    id == 1 || id == 3 || id == 4 || id == 6 || id == 16 || id == 18 || id == 21 || id == 25
}

/// What a record says once relabelled: our maker where it names the maker, our
/// family where it names the family, and otherwise what it said.
pub open spec fn relabeled_text(r: RecordModel) -> Seq<char> {
    match maker_text(r.name) {
        Some(t) => t,
        None => if is_family_id(r.name) {
            spec_renamed(r.text)
        } else {
            r.text
        },
    }
}

/// A record, relabelled.
pub open spec fn relabel(r: RecordModel) -> RecordModel {
    RecordModel { text: relabeled_text(r), ..r }
}

/// Every record, relabelled.
pub open spec fn relabel_all(rs: Seq<RecordModel>) -> Seq<RecordModel> {
    rs.map_values(|r: RecordModel| relabel(r))
}

/// How many of the records relabelling changes.
pub open spec fn changed_count(rs: Seq<RecordModel>) -> nat
    decreases rs.len(),
{
    if rs.len() == 0 {
        0
    } else {
        changed_count(rs.drop_last()) + if relabeled_text(rs.last()) != rs.last().text {
            1nat
        } else {
            0nat
        }
    }
}

// --- The table directory. ---

/// The tag `name`.
pub open spec fn name_tag() -> Seq<u8> {
    seq![0x6eu8, 0x61u8, 0x6du8, 0x65u8]
}

/// The tag `OS/2`.
pub open spec fn os2_tag() -> Seq<u8> {
    seq![0x4fu8, 0x53u8, 0x2fu8, 0x32u8]
}

/// The tag `head`.
pub open spec fn head_tag() -> Seq<u8> {
    seq![0x68u8, 0x65u8, 0x61u8, 0x64u8]
}

/// Our four-byte OS/2 vendor tag, `HNZO`.
pub open spec fn vendor_tag() -> Seq<u8> {
    seq![0x48u8, 0x4eu8, 0x5au8, 0x4fu8]
}

/// Where directory entry `i` starts.
pub open spec fn entry_at(i: int) -> int {
    12 + 16 * i
}

/// The tag of directory entry `i`.
pub open spec fn dir_tag(font: Seq<u8>, i: int) -> Seq<u8> {
    font.subrange(entry_at(i), entry_at(i) + 4)
}

/// Where the table of directory entry `i` starts.
pub open spec fn dir_offset(font: Seq<u8>, i: int) -> int {
    spec_be32(font, entry_at(i) + 8)
}

/// The length of the table of directory entry `i`.
pub open spec fn dir_length(font: Seq<u8>, i: int) -> int {
    spec_be32(font, entry_at(i) + 12)
}

/// The number of tables the directory lists.
pub open spec fn table_count(font: Seq<u8>) -> int {
    spec_be16(font, 4)
}

/// The first directory entry at or after `i`, and before `num`, tagged `tag`.
pub open spec fn find_from(font: Seq<u8>, num: int, tag: Seq<u8>, i: int) -> Option<int>
    decreases num - i,
{
    if i >= num {
        None
    } else if dir_tag(font, i) == tag {
        Some(i)
    } else {
        find_from(font, num, tag, i + 1)
    }
}

/// The first directory entry tagged `tag`.
pub open spec fn find_table(font: Seq<u8>, tag: Seq<u8>) -> Option<int> {
    find_from(font, table_count(font), tag, 0)
}

/// Does the OS/2 table carry a vendor tag other than ours? The tag is read at
/// offset 58 of the table, wherever those four bytes fall inside the file.
pub open spec fn vendor_differs(font: Seq<u8>) -> bool {
    match find_table(font, os2_tag()) {
        Some(i) => {
            let at = dir_offset(font, i) + 58;
            at + 4 <= font.len() && font.subrange(at, at + 4) != vendor_tag()
        },
        None => false,
    }
}

// --- Building a `name` table. ---

/// The first position at or after `p` where `bytes` occurs whole in `store`.
pub open spec fn first_match_from(store: Seq<u8>, bytes: Seq<u8>, p: int) -> Option<int>
    decreases store.len() + 1 - p,
{
    if p < 0 || p + bytes.len() > store.len() {
        None
    } else if store.subrange(p, p + bytes.len()) == bytes {
        Some(p)
    } else {
        first_match_from(store, bytes, p + 1)
    }
}

/// The string store after pooling the first `k` records, and where each of
/// them points into it: an identical string is stored once, at its first place.
pub open spec fn pool(rs: Seq<RecordModel>, k: nat) -> (Seq<u8>, Seq<int>)
    decreases k,
{
    if k == 0 {
        (seq![], seq![])
    } else {
        let (store, offsets) = pool(rs, (k - 1) as nat);
        let r = rs[k - 1];
        let bytes = spec_encode(r.platform, r.text);
        match first_match_from(store, bytes, 0) {
            Some(at) => (store, offsets.push(at)),
            None => (store + bytes, offsets.push(store.len() as int)),
        }
    }
}

/// The 12-byte header of record `r`, whose string is `len` bytes at `offset`.
pub open spec fn record_header(r: RecordModel, len: int, offset: int) -> Seq<u8> {
    u16_bytes(r.platform as int) + u16_bytes(r.encoding as int) + u16_bytes(r.language as int)
        + u16_bytes(r.name as int) + u16_bytes(len) + u16_bytes(offset)
}

/// The headers of the first `k` records.
pub open spec fn record_headers(rs: Seq<RecordModel>, offsets: Seq<int>, k: nat) -> Seq<u8>
    decreases k,
{
    if k == 0 {
        seq![]
    } else {
        let r = rs[k - 1];
        record_headers(rs, offsets, (k - 1) as nat) + record_header(
            r,
            spec_encode(r.platform, r.text).len() as int,
            offsets[k - 1],
        )
    }
}

/// A format-0 `name` table of `rs`, strings pooled. Counts and offsets are
/// written as 16-bit fields: their low 16 bits.
pub open spec fn spec_build_name(rs: Seq<RecordModel>) -> Seq<u8> {
    let (store, offsets) = pool(rs, rs.len());
    u16_bytes(0) + u16_bytes(rs.len() as int) + u16_bytes(6 + 12 * rs.len() as int) + record_headers(
        rs,
        offsets,
        rs.len(),
    ) + store
}

/// Can `rs` be pooled? The pool searches for each string by its byte length,
/// and a search of length zero is not defined.
pub open spec fn poolable(rs: Seq<RecordModel>) -> bool {
    forall|k: int| 0 <= k < rs.len() ==> spec_encode(#[trigger] rs[k].platform, rs[k].text).len() > 0
}

// --- Reassembling the file. ---

/// `s` with `bytes` written over it from `at`.
pub open spec fn write_at(s: Seq<u8>, at: int, bytes: Seq<u8>) -> Seq<u8> {
    s.take(at) + bytes + s.skip(at + bytes.len())
}

/// `n` zero bytes.
pub open spec fn zeros(n: nat) -> Seq<u8> {
    Seq::new(n, |i: int| 0u8)
}

/// `s` zero-padded to a four-byte boundary.
pub open spec fn pad4(s: Seq<u8>) -> Seq<u8> {
    s + zeros(((4 - s.len() % 4) % 4) as nat)
}

/// The body written for directory entry `i`: the new `name` table for every
/// entry tagged `name`, and otherwise the table's own bytes, with our vendor
/// tag at 58 when the entry is an OS/2 table at least 62 bytes long.
pub open spec fn table_body(font: Seq<u8>, i: int, new_name: Seq<u8>) -> Seq<u8> {
    if dir_tag(font, i) == name_tag() {
        new_name
    } else {
        let b = font.subrange(dir_offset(font, i), dir_offset(font, i) + dir_length(font, i));
        if dir_tag(font, i) == os2_tag() && b.len() >= 62 {
            write_at(b, 58, vendor_tag())
        } else {
            b
        }
    }
}

/// The length written for directory entry `i`.
pub open spec fn entry_length(font: Seq<u8>, i: int, new_name: Seq<u8>) -> int {
    if dir_tag(font, i) == name_tag() {
        new_name.len() as int
    } else {
        dir_length(font, i)
    }
}

/// Directory entry `i` as written for a table laid out at `place`: its tag,
/// the checksum of its body, where it starts and how long it is.
pub open spec fn entry_bytes(font: Seq<u8>, i: int, new_name: Seq<u8>, place: int) -> Seq<u8> {
    dir_tag(font, i) + u32_bytes(spec_checksum(table_body(font, i, new_name)) as int) + u32_bytes(
        place,
    ) + u32_bytes(entry_length(font, i, new_name))
}

/// The file after laying out the first `n` tables, in directory order, each at
/// a four-byte boundary, with each one's directory entry written.
#[verifier::opaque]
pub open spec fn layout(font: Seq<u8>, num: nat, new_name: Seq<u8>, n: nat) -> Seq<u8>
    decreases n,
{
    if n == 0 {
        font.take(12) + zeros(16 * num)
    } else {
        let before = pad4(layout(font, num, new_name, (n - 1) as nat));
        write_at(
            before + table_body(font, n - 1, new_name),
            entry_at(n - 1),
            entry_bytes(font, n - 1, new_name, before.len() as int),
        )
    }
}

/// Where table `i` is laid out.
pub open spec fn table_place(font: Seq<u8>, num: nat, new_name: Seq<u8>, i: nat) -> int {
    pad4(layout(font, num, new_name, i)).len() as int
}

/// Where the last of the first `n` tables tagged `head` is laid out.
pub open spec fn head_offset(font: Seq<u8>, num: nat, new_name: Seq<u8>, n: nat) -> Option<int>
    decreases n,
{
    if n == 0 {
        None
    } else if dir_tag(font, n - 1) == head_tag() {
        Some(pad4(layout(font, num, new_name, (n - 1) as nat)).len() as int)
    } else {
        head_offset(font, num, new_name, (n - 1) as nat)
    }
}

/// `head.checkSumAdjustment`, at 8 in the `head` table, is 0xB1B0AFBA minus the
/// checksum of the whole file computed with that field zeroed.
pub open spec fn with_adjustment(out: Seq<u8>, head: int) -> Seq<u8> {
    let zeroed = write_at(out, head + 8, zeros(4));
    let adj = vstd::wrapping::u32_specs::wrapping_sub(0xB1B0AFBAu32, spec_checksum(zeroed));
    write_at(zeroed, head + 8, u32_bytes(adj as int))
}

// --- The whole rewrite. ---

/// How a rewrite ends.
pub enum Outcome {
    /// The input is refused, with this message.
    Refused(Seq<char>),
    /// The new bytes, how many records changed, and whether the vendor tag did.
    Rewritten(Seq<u8>, nat, bool),
    /// The input is malformed in a way that is not checked for: a `name` table
    /// too short for its own header, a string that cannot be pooled, a table
    /// that runs past the end of the file, or a `head` table laid out too short
    /// to hold its adjustment.
    Undefined,
}

/// The lowercase hexadecimal digits of `n`, without leading zeros.
pub open spec fn hex_digits(n: nat) -> Seq<char>
    decreases n,
{
    if n < 16 {
        seq![hex_digit(n)]
    } else {
        hex_digits(n / 16).push(hex_digit(n % 16))
    }
}

/// One lowercase hexadecimal digit.
pub open spec fn hex_digit(d: nat) -> char {
    if d < 10 {
        (48 + d) as char
    } else {
        (87 + d) as char
    }
}

/// Is `tag` an sfnt version a TrueType or OpenType font carries?
pub open spec fn is_sfnt_tag(tag: int) -> bool {
    tag == 0x0001_0000 || tag == 0x4F54_544F || tag == 0x7472_7565
}

/// The message for a file whose sfnt version is `tag`.
pub open spec fn tag_message(tag: nat) -> Seq<char> {
    "not a ttf or otf (sfnt tag 0x"@ + hex_digits(tag) + ")"@
}

/// Is the table of directory entry `i` inside the file?
pub open spec fn table_fits(font: Seq<u8>, i: int) -> bool {
    dir_offset(font, i) + dir_length(font, i) <= font.len()
}

/// What `rewrite` does to `font`.
#[verifier::opaque]
pub open spec fn spec_rewrite(font: Seq<u8>) -> Outcome {
    if font.len() < 12 {
        Outcome::Refused("not an sfnt"@)
    } else if !is_sfnt_tag(spec_be32(font, 0)) {
        Outcome::Refused(tag_message(spec_be32(font, 0) as nat))
    } else if table_count(font) > 0 && entry_at(table_count(font)) > font.len() {
        Outcome::Refused("truncated table directory"@)
    } else {
        match find_table(font, name_tag()) {
            None => Outcome::Refused("no name table"@),
            Some(n) => if !table_fits(font, n) {
                Outcome::Refused("name table runs past the end"@)
            } else {
                let name = font.subrange(dir_offset(font, n), dir_offset(font, n) + dir_length(font, n));
                match name_records(name) {
                    NameParse::Truncated => Outcome::Undefined,
                    NameParse::Overrun => Outcome::Refused("name record runs past the table"@),
                    NameParse::Parsed(rs) => {
                        let count = changed_count(rs);
                        let vendor = vendor_differs(font);
                        if count == 0 && !vendor {
                            Outcome::Rewritten(font, 0, false)
                        } else {
                            let relabeled = relabel_all(rs);
                            let num = table_count(font) as nat;
                            if !poolable(relabeled) || exists|i: int|
                                0 <= i < num && dir_tag(font, i) != name_tag() && !#[trigger] table_fits(font, i) {
                                Outcome::Undefined
                            } else {
                                let new_name = spec_build_name(relabeled);
                                let out = layout(font, num, new_name, num);
                                match head_offset(font, num, new_name, num) {
                                    None => Outcome::Rewritten(out, count, vendor),
                                    Some(h) => if h + 12 > out.len() {
                                        Outcome::Undefined
                                    } else {
                                        Outcome::Rewritten(with_adjustment(out, h), count, vendor)
                                    },
                                }
                            }
                        }
                    },
                }
            },
        }
    }
}

// ---------------------------------------------------------------------------
// The code.
// ---------------------------------------------------------------------------

/// What one call changed, so a caller reports rather than asserts.
#[derive(Debug, Default, PartialEq, Eq)]
pub struct Changed {
    pub records: usize,
    pub vendor: bool,
}

impl Changed {
    /// Did anything change?
    pub fn any(&self) -> (r: bool)
        ensures
            r == (self.records > 0 || self.vendor),
    {
        self.records > 0 || self.vendor
    }
}

/// One decoded name record: the four selector fields, and the string.
struct Record {
    platform: u16,
    encoding: u16,
    language: u16,
    name: u16,
    text: Vec<char>,
}

impl View for Record {
    type V = RecordModel;

    closed spec fn view(&self) -> RecordModel {
        RecordModel {
            platform: self.platform,
            encoding: self.encoding,
            language: self.language,
            name: self.name,
            text: self.text@,
        }
    }
}

/// The models of `rs`.
spec fn models(rs: Seq<Record>) -> Seq<RecordModel> {
    rs.map_values(|r: Record| r@)
}

/// How reading a `name` table ended.
enum Parsed {
    Records(Vec<Record>),
    Overrun,
    Truncated,
}

/// Does `parsed` describe `p`?
spec fn parsed_is(parsed: Parsed, p: NameParse) -> bool {
    match parsed {
        Parsed::Records(v) => p == NameParse::Parsed(models(v@)),
        Parsed::Overrun => p is Overrun,
        Parsed::Truncated => p is Truncated,
    }
}

/// Once reading stops short, reading further records stops in the same place.
proof fn lemma_parse_stays(name: Seq<u8>, i: nat, n: nat)
    requires
        i <= n,
        !(parse_records(name, i) is Parsed),
    ensures
        parse_records(name, n) == parse_records(name, i),
    decreases n - i,
{
    if n > i {
        lemma_parse_stays(name, i, (n - 1) as nat);
    }
}

/// Read every record of the `name` table `name`.
fn parse_name(name: &[u8]) -> (r: Parsed)
    ensures
        parsed_is(r, name_records(name@)),
        r matches Parsed::Records(v) ==> v@.len() <= 65535,
{
    if name.len() < 6 {
        return Parsed::Truncated;
    }
    let count = be16(name, 2) as usize;
    let store = be16(name, 4) as usize;
    let mut records: Vec<Record> = Vec::new();
    let mut i: usize = 0;
    assert(models(records@) =~= seq![]);
    while i < count
        invariant
            name@.len() >= 6,
            count == spec_be16(name@, 2),
            store == spec_be16(name@, 4),
            i <= count,
            count <= 65535,
            records@.len() <= i,
            parse_records(name@, i as nat) == NameParse::Parsed(models(records@)),
        decreases count - i,
    {
        let at = 6 + i * 12;
        if name.len() - at < 12 || name.len() < at {
            proof {
                lemma_parse_stays(name@, (i + 1) as nat, count as nat);
            }
            return Parsed::Truncated;
        }
        let platform = be16(name, at);
        let len = be16(name, at + 8) as usize;
        let off = be16(name, at + 10) as usize;
        let from = store + off;
        if from + len > name.len() {
            proof {
                lemma_parse_stays(name@, (i + 1) as nat, count as nat);
            }
            return Parsed::Overrun;
        }
        let raw = vstd::slice::slice_subrange(name, from, from + len);
        match decode(platform, raw) {
            None => {},
            Some(text) => {
                let r = Record {
                    platform,
                    encoding: be16(name, at + 2),
                    language: be16(name, at + 4),
                    name: be16(name, at + 6),
                    text,
                };
                let ghost before = records@;
                records.push(r);
                assert(models(records@) =~= models(before).push(r@));
            },
        }
        i = i + 1;
    }
    Parsed::Records(records)
}

/// Is `id` one of the records that carry the family?
fn family_id(id: u16) -> (r: bool)
    ensures
        r == is_family_id(id),
{
    id == 1 || id == 3 || id == 4 || id == 6 || id == 16 || id == 18 || id == 21 || id == 25
}

/// Relabel every record, counting the ones whose text changes.
fn relabel_records(records: &Vec<Record>) -> (r: (Vec<Record>, usize))
    ensures
        models(r.0@) == relabel_all(models(records@)),
        r.1 == changed_count(models(records@)),
{
    let ghost all = models(records@);
    let mut out: Vec<Record> = Vec::new();
    let mut count: usize = 0;
    let mut i: usize = 0;
    assert(all.take(0) =~= seq![]);
    while i < records.len()
        invariant
            all == models(records@),
            i <= records@.len(),
            count <= i,
            models(out@) =~= relabel_all(all.take(i as int)),
            count == changed_count(all.take(i as int)),
        decreases records@.len() - i,
    {
        let r = &records[i];
        assert(all[i as int] == r@);
        let next: Vec<char> = match maker(r.name) {
            Some(m) => str_chars(m),
            None => if family_id(r.name) {
                rename_chars(r.text.as_slice())
            } else {
                vstd::slice::slice_to_vec(r.text.as_slice())
            },
        };
        assert(next@ == relabeled_text(r@));
        let differs = !same_chars(next.as_slice(), r.text.as_slice());
        if differs {
            count = count + 1;
        }
        let ghost before = out@;
        let nr = Record {
            platform: r.platform,
            encoding: r.encoding,
            language: r.language,
            name: r.name,
            text: next,
        };
        assert(nr@ == relabel(r@));
        out.push(nr);
        assert(all.take(i + 1).drop_last() =~= all.take(i as int));
        assert(models(out@) =~= models(before).push(relabel(r@)));
        assert(relabel_all(all.take(i + 1)) =~= relabel_all(all.take(i as int)).push(relabel(r@)));
        i = i + 1;
    }
    assert(all.take(records@.len() as int) =~= all);
    (out, count)
}

/// Does `pat` occur in `s` at `at`?
fn bytes_at(s: &[u8], at: usize, pat: &[u8]) -> (r: bool)
    requires
        at <= s@.len(),
    ensures
        r == (pat@.len() <= s@.len() - at && s@.subrange(at as int, at + pat@.len()) == pat@),
{
    if pat.len() > s.len() - at {
        return false;
    }
    let n = s.len();
    let mut k: usize = 0;
    while k < pat.len()
        invariant
            n == s@.len(),
            at <= s@.len(),
            pat@.len() <= s@.len() - at,
            k <= pat@.len(),
            forall|j: int| 0 <= j < k ==> s@[at + j] == pat@[j],
        decreases pat@.len() - k,
    {
        if s[at + k] != pat[k] {
            assert(s@.subrange(at as int, at + pat@.len())[k as int] != pat@[k as int]);
            return false;
        }
        k = k + 1;
    }
    assert(s@.subrange(at as int, at + pat@.len()) =~= pat@);
    true
}

/// The first place `bytes` occurs whole in `store`.
fn first_match(store: &[u8], bytes: &[u8]) -> (r: Option<usize>)
    ensures
        r is Some == first_match_from(store@, bytes@, 0) is Some,
        r matches Some(p) ==> first_match_from(store@, bytes@, 0) == Some(p as int),
{
    if bytes.len() > store.len() {
        return None;
    }
    let last = store.len() - bytes.len();
    let mut p: usize = 0;
    loop
        invariant
            last == store@.len() - bytes@.len(),
            p <= last,
            first_match_from(store@, bytes@, 0) == first_match_from(store@, bytes@, p as int),
        decreases last - p,
    {
        if bytes_at(store, p, bytes) {
            return Some(p);
        }
        if p == last {
            assert(first_match_from(store@, bytes@, p + 1) is None);
            return None;
        }
        p = p + 1;
    }
}

/// The digit of `v` in base `m`, among `k` of them, survives taking `v`
/// modulo `m * k`.
proof fn lemma_digit(v: int, m: int, k: int)
    requires
        v >= 0,
        m > 0,
        k > 0,
    ensures
        (v % (m * k)) / m == (v / m) % k,
{
    vstd::arithmetic::div_mod::lemma_mod_breakdown(v, m, k);
    vstd::arithmetic::div_mod::lemma_mod_pos_bound(v, m);
    vstd::arithmetic::div_mod::lemma_div_multiples_vanish_fancy((v / m) % k, v % m, m);
}

/// Writing the low 16 bits of `v` writes the same two bytes as writing `v`.
proof fn lemma_u16_bytes_low(v: int)
    requires
        v >= 0,
    ensures
        u16_bytes(v % 65536) == u16_bytes(v),
{
    lemma_digit(v, 256, 256);
    vstd::arithmetic::div_mod::lemma_mod_mod(v, 256, 256);
}

/// Writing the low 32 bits of `v` writes the same four bytes as writing `v`.
proof fn lemma_u32_bytes_low(v: int)
    requires
        v >= 0,
    ensures
        u32_bytes(v % 4294967296) == u32_bytes(v),
{
    lemma_digit(v, 16777216, 256);
    lemma_digit(v, 65536, 65536);
    lemma_digit(v, 256, 16777216);
    vstd::arithmetic::div_mod::lemma_mod_mod(v / 65536, 256, 256);
    vstd::arithmetic::div_mod::lemma_mod_mod(v / 256, 256, 65536);
    vstd::arithmetic::div_mod::lemma_mod_mod(v, 256, 16777216);
}

/// Append `b` to `out`.
fn append(out: &mut Vec<u8>, b: &[u8])
    ensures
        final(out)@ == old(out)@ + b@,
{
    let mut k: usize = 0;
    while k < b.len()
        invariant
            k <= b@.len(),
            out@ =~= old(out)@ + b@.take(k as int),
        decreases b@.len() - k,
    {
        out.push(b[k]);
        k = k + 1;
    }
    assert(b@.take(b@.len() as int) =~= b@);
}

/// A format-0 `name` table from records, pooling identical strings; `None`
/// where a record's string is empty and so cannot be searched for.
fn build_name(records: &Vec<Record>) -> (r: Option<Vec<u8>>)
    requires
        records@.len() <= 65535,
    ensures
        r is Some == poolable(models(records@)),
        r matches Some(t) ==> t@ == spec_build_name(models(records@)),
{
    let ghost rs = models(records@);
    let count = records.len();
    let mut store: Vec<u8> = Vec::new();
    let mut headers: Vec<u8> = Vec::new();
    let ghost mut offsets: Seq<int> = seq![];
    let mut k: usize = 0;
    while k < count
        invariant
            rs == models(records@),
            count == records@.len(),
            k <= count,
            (store@, offsets) == pool(rs, k as nat),
            offsets.len() == k,
            headers@ == record_headers(rs, offsets, k as nat),
            forall|j: int| 0 <= j < k ==> spec_encode(#[trigger] rs[j].platform, rs[j].text).len() > 0,
        decreases count - k,
    {
        let r = &records[k];
        assert(rs[k as int] == r@);
        let bytes = encode(r.platform, r.text.as_slice());
        if bytes.len() == 0 {
            assert(!poolable(rs)) by {
                assert(spec_encode(rs[k as int].platform, rs[k as int].text).len() == 0);
            }
            return None;
        }
        let offset: usize = match first_match(store.as_slice(), bytes.as_slice()) {
            Some(at) => {
                proof {
                    offsets = offsets.push(at as int);
                }
                at
            },
            None => {
                let at = store.len();
                append(&mut store, bytes.as_slice());
                proof {
                    offsets = offsets.push(at as int);
                }
                at
            },
        };
        let ghost before = headers@;
        push_u16(&mut headers, r.platform);
        push_u16(&mut headers, r.encoding);
        push_u16(&mut headers, r.language);
        push_u16(&mut headers, r.name);
        push_u16(&mut headers, (bytes.len() % 65536) as u16);
        push_u16(&mut headers, (offset % 65536) as u16);
        proof {
            lemma_u16_bytes_low(bytes@.len() as int);
            lemma_u16_bytes_low(offset as int);
            assert(headers@ =~= before + record_header(r@, bytes@.len() as int, offset as int));
            assert(offsets.drop_last() =~= pool(rs, k as nat).1);
            assert(record_headers(rs, offsets, k as nat) == record_headers(rs, offsets.drop_last(), k as nat)) by {
                lemma_headers_prefix(rs, offsets.drop_last(), offsets, k as nat);
            }
        }
        k = k + 1;
    }
    let mut out: Vec<u8> = Vec::new();
    push_u16(&mut out, 0);
    push_u16(&mut out, (count % 65536) as u16);
    push_u16(&mut out, ((6 + 12 * count) % 65536) as u16);
    append(&mut out, headers.as_slice());
    append(&mut out, store.as_slice());
    proof {
        lemma_u16_bytes_low(count as int);
        lemma_u16_bytes_low(6 + 12 * count);
    }
    Some(out)
}

/// The headers of the first `k` records read only the first `k` offsets.
proof fn lemma_headers_prefix(rs: Seq<RecordModel>, a: Seq<int>, b: Seq<int>, k: nat)
    requires
        k <= a.len(),
        k <= b.len(),
        forall|j: int| 0 <= j < k ==> a[j] == b[j],
    ensures
        record_headers(rs, a, k) == record_headers(rs, b, k),
    decreases k,
{
    if k > 0 {
        lemma_headers_prefix(rs, a, b, (k - 1) as nat);
    }
}

/// The four bytes of a tag.
fn tag_bytes(a: u8, b: u8, c: u8, d: u8) -> (v: Vec<u8>)
    ensures
        v@ == seq![a, b, c, d],
{
    let mut v: Vec<u8> = Vec::new();
    v.push(a);
    v.push(b);
    v.push(c);
    v.push(d);
    assert(v@ =~= seq![a, b, c, d]);
    v
}

/// Is directory entry `i` tagged `tag`?
fn entry_tagged(font: &[u8], i: usize, tag: &[u8]) -> (r: bool)
    requires
        entry_at(i as int) + 16 <= font@.len(),
        tag@.len() == 4,
    ensures
        r == (dir_tag(font@, i as int) == tag@),
{
    let n = font.len();
    assert(n == font@.len());
    bytes_at(font, 12 + 16 * i, tag)
}

/// The first directory entry tagged `tag`.
fn find_entry(font: &[u8], num: usize, tag: &[u8]) -> (r: Option<usize>)
    requires
        num == table_count(font@),
        entry_at(num as int) <= font@.len(),
        tag@.len() == 4,
    ensures
        r is Some == find_table(font@, tag@) is Some,
        r matches Some(i) ==> find_table(font@, tag@) == Some(i as int) && i < num,
{
    let mut i: usize = 0;
    while i < num
        invariant
            num == table_count(font@),
            entry_at(num as int) <= font@.len(),
            tag@.len() == 4,
            i <= num,
            find_table(font@, tag@) == find_from(font@, num as int, tag@, i as int),
        decreases num - i,
    {
        if entry_tagged(font, i, tag) {
            return Some(i);
        }
        i = i + 1;
    }
    None
}

/// Where the table of directory entry `i` starts.
fn entry_offset(font: &[u8], i: usize) -> (r: u32)
    requires
        entry_at(i as int) + 16 <= font@.len(),
    ensures
        r == dir_offset(font@, i as int),
{
    let n = font.len();
    assert(n == font@.len());
    be32(font, 12 + 16 * i + 8)
}

/// The length of the table of directory entry `i`.
fn entry_len(font: &[u8], i: usize) -> (r: u32)
    requires
        entry_at(i as int) + 16 <= font@.len(),
    ensures
        r == dir_length(font@, i as int),
{
    let n = font.len();
    assert(n == font@.len());
    be32(font, 12 + 16 * i + 12)
}

/// Is the table of directory entry `i` inside the file?
fn entry_fits(font: &[u8], i: usize) -> (r: bool)
    requires
        entry_at(i as int) + 16 <= font@.len(),
    ensures
        r == table_fits(font@, i as int),
{
    (entry_offset(font, i) as u64) + (entry_len(font, i) as u64) <= font.len() as u64
}

/// Pad `out` with zeros to a four-byte boundary.
fn pad(out: &mut Vec<u8>)
    ensures
        final(out)@ == pad4(old(out)@),
{
    let n = (4 - out.len() % 4) % 4;
    let mut k: usize = 0;
    while k < n
        invariant
            n == (4 - old(out)@.len() % 4) % 4,
            k <= n,
            out@ =~= old(out)@ + zeros(k as nat),
        decreases n - k,
    {
        out.push(0);
        k = k + 1;
    }
}

/// Write `b` over `out` from `at`.
fn write_bytes(out: &mut Vec<u8>, at: usize, b: &[u8])
    requires
        at + b@.len() <= old(out)@.len(),
    ensures
        final(out)@ == write_at(old(out)@, at as int, b@),
{
    let n = out.len();
    let mut k: usize = 0;
    while k < b.len()
        invariant
            n == old(out)@.len(),
            at + b@.len() <= old(out)@.len(),
            k <= b@.len(),
            out@ =~= write_at(old(out)@, at as int, b@.take(k as int)),
        decreases b@.len() - k,
    {
        out.set(at + k, b[k]);
        k = k + 1;
    }
    assert(b@.take(b@.len() as int) =~= b@);
}

/// The laid-out file always holds the whole new directory.
pub proof fn lemma_layout_len(font: Seq<u8>, num: nat, new_name: Seq<u8>, n: nat)
    requires
        font.len() >= 12,
        n <= num,
        entry_at(num as int) <= font.len(),
    ensures
        layout(font, num, new_name, n).len() >= entry_at(num as int),
    decreases n,
{
    reveal(layout);
    if n > 0 {
        let i = n - 1;
        lemma_layout_len(font, num, new_name, (n - 1) as nat);
        let before = pad4(layout(font, num, new_name, (n - 1) as nat));
        let body = table_body(font, i, new_name);
        let entry = entry_bytes(font, i, new_name, before.len() as int);
        assert(entry.len() == 16);
        let whole = before + body;
        assert(whole.len() >= entry_at(num as int));
        assert(write_at(whole, entry_at(i), entry).len() == whole.len());
    }
}

/// Lay out table `i` after the first `i`, answering where it starts.
fn lay_table(
    font: &[u8],
    num: usize,
    i: usize,
    new_name: &[u8],
    out: &mut Vec<u8>,
    name_t: &Vec<u8>,
    os2_t: &Vec<u8>,
) -> (offset: usize)
    requires
        font@.len() >= 12,
        num == table_count(font@),
        entry_at(num as int) <= font@.len(),
        i < num,
        dir_tag(font@, i as int) != name_tag() ==> table_fits(font@, i as int),
        name_t@ == name_tag(),
        os2_t@ == os2_tag(),
        old(out)@ == layout(font@, num as nat, new_name@, i as nat),
        old(out)@.len() >= entry_at(num as int),
    ensures
        final(out)@ == layout(font@, num as nat, new_name@, (i + 1) as nat),
        offset == pad4(old(out)@).len(),
{
    reveal(layout);
    let ghost before = out@;
    pad(out);
    let offset = out.len();
    let is_name = entry_tagged(font, i, name_t.as_slice());
    let length: u32;
    let body: Vec<u8> = if is_name {
        length = (new_name.len() as u64 % 4294967296) as u32;
        vstd::slice::slice_to_vec(new_name)
    } else {
        let at = entry_offset(font, i) as usize;
        length = entry_len(font, i);
        let n = font.len();
        assert(n == font@.len());
        let mut b = vstd::slice::slice_to_vec(
            vstd::slice::slice_subrange(font, at, at + length as usize),
        );
        if entry_tagged(font, i, os2_t.as_slice()) && b.len() >= 62 {
            b.set(58, 0x48);
            b.set(59, 0x4e);
            b.set(60, 0x5a);
            b.set(61, 0x4f);
            assert(b@ =~= write_at(
                font@.subrange(dir_offset(font@, i as int), dir_offset(font@, i as int) + dir_length(font@, i as int)),
                58,
                vendor_tag(),
            ));
        }
        b
    };
    assert(body@ == table_body(font@, i as int, new_name@));
    let sum = checksum(body.as_slice());
    append(out, body.as_slice());
    let mut entry: Vec<u8> = Vec::new();
    append(&mut entry, vstd::slice::slice_subrange(font, 12 + 16 * i, 12 + 16 * i + 4));
    push_u32(&mut entry, sum);
    push_u32(&mut entry, (offset as u64 % 4294967296) as u32);
    push_u32(&mut entry, length);
    proof {
        lemma_u32_bytes_low(offset as int);
        lemma_u32_bytes_low(entry_length(font@, i as int, new_name@));
        assert(entry@ =~= dir_tag(font@, i as int) + u32_bytes(spec_checksum(body@) as int) + u32_bytes(
            offset as int,
        ) + u32_bytes(entry_length(font@, i as int, new_name@)));
    }
    write_bytes(out, 12 + 16 * i, entry.as_slice());
    offset
}

/// Lay out every table in directory order after a new directory, answering
/// the file and where the last `head` table went.
fn assemble(font: &[u8], num: usize, new_name: &[u8]) -> (r: (Vec<u8>, Option<usize>))
    requires
        font@.len() >= 12,
        num == table_count(font@),
        entry_at(num as int) <= font@.len(),
        forall|i: int|
            0 <= i < num && dir_tag(font@, i) != name_tag() ==> #[trigger] table_fits(font@, i),
    ensures
        r.0@ == layout(font@, num as nat, new_name@, num as nat),
        r.1 matches Some(h) ==> head_offset(font@, num as nat, new_name@, num as nat) == Some(h as int),
        r.1 is None ==> head_offset(font@, num as nat, new_name@, num as nat) is None,
{
    reveal(layout);
    let name_t = tag_bytes(0x6e, 0x61, 0x6d, 0x65);
    let os2_t = tag_bytes(0x4f, 0x53, 0x2f, 0x32);
    let head_t = tag_bytes(0x68, 0x65, 0x61, 0x64);
    let mut out: Vec<u8> = Vec::new();
    append(&mut out, vstd::slice::slice_subrange(font, 0, 12));
    let dir_len = 16 * num;
    let mut k: usize = 0;
    while k < dir_len
        invariant
            dir_len == 16 * num,
            k <= dir_len,
            out@ =~= font@.take(12) + zeros(k as nat),
        decreases dir_len - k,
    {
        out.push(0);
        k = k + 1;
    }
    let mut head_at: Option<usize> = None;
    let mut i: usize = 0;
    while i < num
        invariant
            font@.len() >= 12,
            num == table_count(font@),
            entry_at(num as int) <= font@.len(),
            forall|i: int|
                0 <= i < num && dir_tag(font@, i) != name_tag() ==> #[trigger] table_fits(font@, i),
            name_t@ == name_tag(),
            os2_t@ == os2_tag(),
            head_t@ == head_tag(),
            i <= num,
            out@ == layout(font@, num as nat, new_name@, i as nat),
            head_at matches Some(h) ==> head_offset(font@, num as nat, new_name@, i as nat) == Some(h as int),
            head_at is None ==> head_offset(font@, num as nat, new_name@, i as nat) is None,
        decreases num - i,
    {
        proof {
            lemma_layout_len(font@, num as nat, new_name@, i as nat);
        }
        let offset = lay_table(font, num, i, new_name, &mut out, &name_t, &os2_t);
        if entry_tagged(font, i, head_t.as_slice()) {
            head_at = Some(offset);
        }
        i = i + 1;
    }
    (out, head_at)
}

/// Write `head.checkSumAdjustment` for the `head` table laid out at `head`.
fn adjust(out: &mut Vec<u8>, head: usize)
    requires
        head + 12 <= old(out)@.len(),
    ensures
        final(out)@ == with_adjustment(old(out)@, head as int),
{
    let mut zero: Vec<u8> = Vec::new();
    push_u32(&mut zero, 0);
    assert(zero@ =~= zeros(4));
    let n = out.len();
    assert(n == old(out)@.len());
    write_bytes(out, head + 8, zero.as_slice());
    let whole = checksum(out.as_slice());
    let adj = 0xB1B0AFBAu32.wrapping_sub(whole);
    let mut word: Vec<u8> = Vec::new();
    push_u32(&mut word, adj);
    write_bytes(out, head + 8, word.as_slice());
}

/// Does the OS/2 table carry a vendor tag other than ours?
fn vendor_check(font: &[u8], num: usize) -> (r: bool)
    requires
        num == table_count(font@),
        entry_at(num as int) <= font@.len(),
    ensures
        r == vendor_differs(font@),
{
    let os2_t = tag_bytes(0x4f, 0x53, 0x2f, 0x32);
    let vendor = tag_bytes(0x48, 0x4e, 0x5a, 0x4f);
    match find_entry(font, num, os2_t.as_slice()) {
        Some(i) => {
            let at = entry_offset(font, i) as u64 + 58;
            if at + 4 <= font.len() as u64 {
                !bytes_at(font, at as usize, vendor.as_slice())
            } else {
                false
            }
        },
        None => false,
    }
}

/// One lowercase hexadecimal digit.
fn hex_char(d: u32) -> (c: char)
    requires
        d < 16,
    ensures
        c == hex_digit(d as nat),
{
    let b: u8 = if d < 10 { 48 + d as u8 } else { 87 + d as u8 };
    let c = b as char;
    proof {
        vstd::utf8::char_u32_cast(c, c as u32);
    }
    c
}

/// The lowercase hexadecimal digits of `n`.
fn hex(n: u32) -> (v: Vec<char>)
    ensures
        v@ == hex_digits(n as nat),
    decreases n,
{
    if n < 16 {
        let mut v: Vec<char> = Vec::new();
        v.push(hex_char(n));
        assert(v@ =~= seq![hex_digit(n as nat)]);
        v
    } else {
        let mut v = hex(n / 16);
        v.push(hex_char(n % 16));
        v
    }
}

/// The message for a file whose sfnt version is `tag`.
fn tag_error(tag: u32) -> (s: String)
    ensures
        s@ == tag_message(tag as nat),
{
    let mut s = String::from_str("not a ttf or otf (sfnt tag 0x");
    let digits = crate::text::string_from_chars(hex(tag).as_slice());
    s.append(digits.as_str());
    s.append(")");
    s
}

/// Does `r` answer as `o` says?
pub open spec fn answers(r: Result<(Vec<u8>, Changed), String>, o: Outcome) -> bool {
    match o {
        Outcome::Refused(m) => r matches Err(e) && e@ == m,
        Outcome::Rewritten(b, c, v) => r matches Ok((out, what)) && out@ == b && what.records
            == c && what.vendor == v,
        Outcome::Undefined => false,
    }
}

/// Rewrite `font`'s identity, answering the new bytes and what moved, or
/// `None` where the input is malformed in a way the rewrite does not check
/// for (see `Outcome::Undefined`).
///
/// Returns the input unchanged when there is nothing to do, so a run over an
/// already-correct tree is a no-op rather than a re-serialisation, which would
/// rewrite `head.checkSumAdjustment` and make every file look modified.
#[verifier::loop_isolation(false)]
pub fn rewrite_checked(font: &[u8]) -> (r: Option<Result<(Vec<u8>, Changed), String>>)
    ensures
        r is None == spec_rewrite(font@) is Undefined,
        r matches Some(a) ==> answers(a, spec_rewrite(font@)),
{
    reveal(spec_rewrite);
    let len = font.len();
    if len < 12 {
        return Some(Err(String::from_str("not an sfnt")));
    }
    let tag = be32(font, 0);
    if tag != 0x0001_0000 && tag != 0x4F54_544F && tag != 0x7472_7565 {
        return Some(Err(tag_error(tag)));
    }
    let num = be16(font, 4) as usize;
    if num > 0 && (len - 12) / 16 < num {
        return Some(Err(String::from_str("truncated table directory")));
    }
    let name_t = tag_bytes(0x6e, 0x61, 0x6d, 0x65);
    let n = match find_entry(font, num, name_t.as_slice()) {
        Some(n) => n,
        None => {
            return Some(Err(String::from_str("no name table")));
        },
    };
    if !entry_fits(font, n) {
        return Some(Err(String::from_str("name table runs past the end")));
    }
    let name_at = entry_offset(font, n) as usize;
    let name_len = entry_len(font, n) as usize;
    let name = vstd::slice::slice_subrange(font, name_at, name_at + name_len);
    let records = match parse_name(name) {
        Parsed::Truncated => {
            return None;
        },
        Parsed::Overrun => {
            return Some(Err(String::from_str("name record runs past the table")));
        },
        Parsed::Records(v) => v,
    };
    let (relabeled, count) = relabel_records(&records);
    let vendor = vendor_check(font, num);
    let what = Changed { records: count, vendor };
    if !what.any() {
        return Some(Ok((vstd::slice::slice_to_vec(font), what)));
    }
    let mut i: usize = 0;
    while i < num
        invariant
            num == table_count(font@),
            entry_at(num as int) <= font@.len(),
            name_t@ == name_tag(),
            i <= num,
            forall|j: int|
                0 <= j < i && dir_tag(font@, j) != name_tag() ==> #[trigger] table_fits(font@, j),
        decreases num - i,
    {
        if !entry_tagged(font, i, name_t.as_slice()) && !entry_fits(font, i) {
            assert(dir_tag(font@, i as int) != name_tag() && !table_fits(font@, i as int));
            return None;
        }
        i = i + 1;
    }
    let new_name = match build_name(&relabeled) {
        Some(t) => t,
        None => {
            return None;
        },
    };
    let (mut out, head_at) = assemble(font, num, new_name.as_slice());
    match head_at {
        Some(h) => {
            if out.len() < 12 || h > out.len() - 12 {
                return None;
            }
            adjust(&mut out, h);
        },
        None => {},
    }
    Some(Ok((out, what)))
}

/// Rewrite `font`'s identity, answering the new bytes and what moved.
///
/// Returns the input unchanged when there is nothing to do, so a run over an
/// already-correct tree is a no-op.
pub fn rewrite(font: &[u8]) -> (r: Result<(Vec<u8>, Changed), String>)
    requires
        !(spec_rewrite(font@) is Undefined),
    ensures
        answers(r, spec_rewrite(font@)),
{
    match rewrite_checked(font) {
        Some(r) => r,
        None => {
            assert(false);
            Err(String::new())
        },
    }
}

/// The index of the `name` table a rewrite of `font` relabels.
pub open spec fn name_index(font: Seq<u8>) -> int {
    find_table(font, name_tag())->0
}

/// The records a rewrite of `font` reads.
pub open spec fn read_records(font: Seq<u8>) -> Seq<RecordModel> {
    let n = name_index(font);
    name_records(font.subrange(dir_offset(font, n), dir_offset(font, n) + dir_length(font, n)))->Parsed_0
}

/// The `name` table a rewrite of `font` writes.
pub open spec fn new_name_table(font: Seq<u8>) -> Seq<u8> {
    spec_build_name(relabel_all(read_records(font)))
}

/// The file a rewrite of `font` lays out, before its checksum adjustment.
pub open spec fn laid_out(font: Seq<u8>) -> Seq<u8> {
    let num = table_count(font) as nat;
    layout(font, num, new_name_table(font), num)
}

/// Where the `head` table a rewrite of `font` adjusts is laid out.
pub open spec fn laid_head(font: Seq<u8>) -> Option<int> {
    let num = table_count(font) as nat;
    head_offset(font, num, new_name_table(font), num)
}

/// What a rewrite that changes something is made of.
pub proof fn lemma_rewrite_shape(font: Seq<u8>)
    requires
        spec_rewrite(font) is Rewritten,
    ensures
        ({
            let out = spec_rewrite(font)->Rewritten_0;
            let num = table_count(font);
            &&& font.len() >= 12
            &&& is_sfnt_tag(spec_be32(font, 0))
            &&& entry_at(num) <= font.len()
            &&& find_table(font, name_tag()) == Some(name_index(font))
            &&& 0 <= name_index(font) < num
            &&& table_fits(font, name_index(font))
            &&& name_records(
                font.subrange(
                    dir_offset(font, name_index(font)),
                    dir_offset(font, name_index(font)) + dir_length(font, name_index(font)),
                ),
            ) == NameParse::Parsed(read_records(font))
            &&& spec_rewrite(font)->Rewritten_1 == changed_count(read_records(font))
            &&& spec_rewrite(font)->Rewritten_2 == vendor_differs(font)
            &&& (changed_count(read_records(font)) == 0 && !vendor_differs(font)) ==> out == font
            &&& (changed_count(read_records(font)) > 0 || vendor_differs(font)) ==> {
                &&& poolable(relabel_all(read_records(font)))
                &&& forall|i: int|
                    0 <= i < num && dir_tag(font, i) != name_tag() ==> #[trigger] table_fits(font, i)
                &&& match laid_head(font) {
                    None => out == laid_out(font),
                    Some(h) => h + 12 <= laid_out(font).len() && out == with_adjustment(
                        laid_out(font),
                        h,
                    ),
                }
            }
        }),
{
    reveal(spec_rewrite);
    lemma_find_bounds(font, table_count(font), name_tag(), 0);
}

/// A directory entry found is one of the entries searched.
pub proof fn lemma_find_bounds(font: Seq<u8>, num: int, tag: Seq<u8>, i: int)
    requires
        0 <= i,
    ensures
        find_from(font, num, tag, i) matches Some(j) ==> i <= j < num && dir_tag(font, j) == tag,
    decreases num - i,
{
    if i < num && dir_tag(font, i) != tag {
        lemma_find_bounds(font, num, tag, i + 1);
    }
}

/// A file whose `name` table reads, and which relabelling and the vendor tag
/// leave as it is, is rewritten to itself.
pub proof fn lemma_rewrite_unchanged(font: Seq<u8>, n: int, rs: Seq<RecordModel>)
    requires
        font.len() >= 12,
        is_sfnt_tag(spec_be32(font, 0)),
        entry_at(table_count(font)) <= font.len(),
        find_table(font, name_tag()) == Some(n),
        table_fits(font, n),
        name_records(font.subrange(dir_offset(font, n), dir_offset(font, n) + dir_length(font, n)))
            == NameParse::Parsed(rs),
        changed_count(rs) == 0,
        !vendor_differs(font),
    ensures
        spec_rewrite(font) == Outcome::Rewritten(font, 0, false),
{
    reveal(spec_rewrite);
}

/// A record read from a table holds one-byte characters unless it is on
/// platform 3.
pub proof fn lemma_parsed_narrow(name: Seq<u8>, k: nat)
    ensures
        parse_records(name, k) matches NameParse::Parsed(rs) ==> forall|j: int|
            0 <= j < rs.len() ==> (#[trigger] rs[j]).platform == 3 || crate::text::is_latin1(
                rs[j].text,
            ),
    decreases k,
{
    if k > 0 {
        lemma_parsed_narrow(name, (k - 1) as nat);
        match parse_records(name, (k - 1) as nat) {
            NameParse::Parsed(prev) => {
                let at = record_at(k - 1);
                if at + 12 <= name.len() {
                    let len = spec_be16(name, at + 8);
                    let from = spec_be16(name, 4) + spec_be16(name, at + 10);
                    if from + len <= name.len() {
                        crate::text::lemma_latin1_decode_narrow(name.subrange(from, from + len));
                    }
                }
            },
            _ => {},
        }
    }
}

} // verus!
