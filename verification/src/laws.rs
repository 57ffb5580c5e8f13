//! What holds of a rewrite as a whole.
use vstd::prelude::*;
use crate::name::{
    write_at, zeros, pad4, layout, table_place, table_body, entry_bytes, entry_at, dir_tag,
    dir_offset, dir_length, table_fits, head_offset, head_tag, name_tag, os2_tag, table_count,
    spec_rewrite, Outcome, with_adjustment, entry_length, RecordModel, NameParse, pool,
    first_match_from, record_headers, record_header, spec_build_name, parse_records, name_records,
    poolable, record_at,
};
use crate::text::{spec_encode, spec_decode};
use crate::sfnt::{
    spec_be16, spec_be32, u16_bytes, u32_bytes, spec_checksum, word_sum, padded_word, byte_or_zero,
};

verus! {

/// Writing inside a sequence keeps its length, puts the bytes where they were
/// written and leaves every other byte alone.
proof fn lemma_write_at(s: Seq<u8>, at: int, b: Seq<u8>)
    requires
        0 <= at,
        at + b.len() <= s.len(),
    ensures
        write_at(s, at, b).len() == s.len(),
        write_at(s, at, b).subrange(at, at + b.len()) == b,
        forall|k: int|
            0 <= k < s.len() && !(at <= k < at + b.len()) ==> #[trigger] write_at(s, at, b)[k]
                == s[k],
{
    assert(write_at(s, at, b).subrange(at, at + b.len()) =~= b);
}

/// A write outside `[p, p + m)` leaves that range alone.
proof fn lemma_write_elsewhere(s: Seq<u8>, at: int, b: Seq<u8>, p: int, m: int)
    requires
        0 <= at,
        at + b.len() <= s.len(),
        0 <= p,
        0 <= m,
        p + m <= s.len(),
        p + m <= at || at + b.len() <= p,
    ensures
        write_at(s, at, b).subrange(p, p + m) == s.subrange(p, p + m),
{
    lemma_write_at(s, at, b);
    assert(write_at(s, at, b).subrange(p, p + m) =~= s.subrange(p, p + m));
}

/// Padding and appending leave what was there alone.
proof fn lemma_pad_append(s: Seq<u8>, body: Seq<u8>, p: int, m: int)
    requires
        0 <= p,
        0 <= m,
        p + m <= s.len(),
    ensures
        (pad4(s) + body).subrange(p, p + m) == s.subrange(p, p + m),
        pad4(s).len() >= s.len(),
        pad4(s).len() % 4 == 0,
{
    assert((pad4(s) + body).subrange(p, p + m) =~= s.subrange(p, p + m));
}

/// Every table is laid out whole at its place, after the directory, and its
/// directory entry stays as written, however many tables follow it.
#[verifier::rlimit(60)]
#[verifier::spinoff_prover]
pub proof fn lemma_layout_keeps(font: Seq<u8>, num: nat, new_name: Seq<u8>, i: nat, n: nat)
    requires
        font.len() >= 12,
        entry_at(num as int) <= font.len(),
        i < n <= num,
    ensures
        table_place(font, num, new_name, i) >= entry_at(num as int),
        table_place(font, num, new_name, i) % 4 == 0,
        table_place(font, num, new_name, i) + table_body(font, i as int, new_name).len() <= layout(
            font,
            num,
            new_name,
            n,
        ).len(),
        layout(font, num, new_name, n).subrange(
            table_place(font, num, new_name, i),
            table_place(font, num, new_name, i) + table_body(font, i as int, new_name).len(),
        ) == table_body(font, i as int, new_name),
        layout(font, num, new_name, n).subrange(entry_at(i as int), entry_at(i as int) + 16)
            == entry_bytes(font, i as int, new_name, table_place(font, num, new_name, i)),
    decreases n - i,
{
    reveal(layout);
    crate::name::lemma_layout_len(font, num, new_name, i);
    let place = table_place(font, num, new_name, i);
    let body = table_body(font, i as int, new_name);
    let before = pad4(layout(font, num, new_name, i));
    lemma_pad_append(layout(font, num, new_name, i), body, 0, 0);
    let entry = entry_bytes(font, i as int, new_name, place);
    assert(entry.len() == 16);
    if n == i + 1 {
        assert((before + body).subrange(place, place + body.len()) =~= body);
        lemma_write_at(before + body, entry_at(i as int), entry);
        lemma_write_elsewhere(before + body, entry_at(i as int), entry, place, body.len() as int);
    } else {
        lemma_layout_keeps(font, num, new_name, i, (n - 1) as nat);
        crate::name::lemma_layout_len(font, num, new_name, (n - 1) as nat);
        let prev = layout(font, num, new_name, (n - 1) as nat);
        let b2 = table_body(font, n - 1, new_name);
        let before2 = pad4(prev);
        lemma_pad_append(prev, b2, place, body.len() as int);
        lemma_pad_append(prev, b2, entry_at(i as int), 16);
        let e2 = entry_bytes(font, n - 1, new_name, before2.len() as int);
        assert(e2.len() == 16);
        lemma_write_elsewhere(before2 + b2, entry_at(n - 1), e2, place, body.len() as int);
        lemma_write_elsewhere(before2 + b2, entry_at(n - 1), e2, entry_at(i as int), 16);
    }
}

/// Four bytes written for `v` read back as `v`.
proof fn lemma_u32_roundtrip(s: Seq<u8>, at: int, v: int)
    requires
        0 <= v < 4294967296,
        0 <= at,
        at + 4 <= s.len(),
        s.subrange(at, at + 4) == u32_bytes(v),
    ensures
        spec_be32(s, at) == v,
{
    assert(s[at] == s.subrange(at, at + 4)[0]);
    assert(s[at + 1] == s.subrange(at, at + 4)[1]);
    assert(s[at + 2] == s.subrange(at, at + 4)[2]);
    assert(s[at + 3] == s.subrange(at, at + 4)[3]);
    let w = v as u32;
    assert((w / 16777216) % 256 * 16777216 + (w / 65536) % 256 * 65536 + (w / 256) % 256 * 256 + w
        % 256 == w) by (bit_vector);
}

/// Where `head_offset` points: the last `head` table among the first `n`.
proof fn lemma_head_offset(font: Seq<u8>, num: nat, new_name: Seq<u8>, n: nat) -> (j: nat)
    requires
        head_offset(font, num, new_name, n) is Some,
    ensures
        j < n,
        dir_tag(font, j as int) == head_tag(),
        head_offset(font, num, new_name, n) == Some(table_place(font, num, new_name, j)),
    decreases n,
{
    if dir_tag(font, n - 1) == head_tag() {
        (n - 1) as nat
    } else {
        lemma_head_offset(font, num, new_name, (n - 1) as nat)
    }
}

/// Tables laid out earlier end before later ones start.
proof fn lemma_places_ordered(font: Seq<u8>, num: nat, new_name: Seq<u8>, i: nat, j: nat)
    requires
        font.len() >= 12,
        entry_at(num as int) <= font.len(),
        i < j < num,
    ensures
        table_place(font, num, new_name, i) + table_body(font, i as int, new_name).len()
            <= table_place(font, num, new_name, j),
{
    lemma_layout_keeps(font, num, new_name, i, j);
    lemma_pad_append(layout(font, num, new_name, j), seq![], 0, 0);
}

/// The checksum adjustment leaves every byte outside its four alone.
proof fn lemma_adjust_keeps(laid: Seq<u8>, h: int, p: int, m: int)
    requires
        0 <= h,
        h + 12 <= laid.len(),
        0 <= p,
        0 <= m,
        p + m <= laid.len(),
        p + m <= h + 8 || h + 12 <= p,
    ensures
        with_adjustment(laid, h).subrange(p, p + m) == laid.subrange(p, p + m),
        with_adjustment(laid, h).len() == laid.len(),
{
    let zeroed = write_at(laid, h + 8, zeros(4));
    lemma_write_at(laid, h + 8, zeros(4));
    lemma_write_elsewhere(laid, h + 8, zeros(4), p, m);
    let word = vstd::wrapping::u32_specs::wrapping_sub(
        0xB1B0AFBAu32,
        crate::sfnt::spec_checksum(zeroed),
    );
    lemma_write_at(zeroed, h + 8, u32_bytes(word as int));
    lemma_write_elsewhere(zeroed, h + 8, u32_bytes(word as int), p, m);
}

/// A directory entry written as `entry_bytes` reads back as what was written.
#[verifier::spinoff_prover]
#[verifier::rlimit(40)]
proof fn lemma_entry_reads(out: Seq<u8>, font: Seq<u8>, i: int, new_name: Seq<u8>, place: int)
    requires
        0 <= i,
        entry_at(i) + 16 <= out.len(),
        entry_at(i) + 16 <= font.len(),
        0 <= place < 4294967296,
        0 <= crate::name::entry_length(font, i, new_name) < 4294967296,
        out.subrange(entry_at(i), entry_at(i) + 16) == entry_bytes(font, i, new_name, place),
    ensures
        dir_tag(out, i) == dir_tag(font, i),
        dir_offset(out, i) == place,
        dir_length(out, i) == crate::name::entry_length(font, i, new_name),
        spec_be32(out, entry_at(i) + 4) == spec_checksum(table_body(font, i, new_name)),
{
    let e = out.subrange(entry_at(i), entry_at(i) + 16);
    let t = dir_tag(font, i);
    assert(t.len() == 4);
    let sum = u32_bytes(crate::sfnt::spec_checksum(table_body(font, i, new_name)) as int);
    let p = u32_bytes(place);
    let l = u32_bytes(crate::name::entry_length(font, i, new_name));
    assert(e == t + sum + p + l);
    assert(e.subrange(8, 12) =~= p);
    assert(e.subrange(4, 8) =~= sum);
    assert(out.subrange(entry_at(i) + 4, entry_at(i) + 8) =~= e.subrange(4, 8));
    lemma_u32_roundtrip(out, entry_at(i) + 4, spec_checksum(table_body(font, i, new_name)) as int);
    assert(e.subrange(12, 16) =~= l);
    assert(out.subrange(entry_at(i) + 8, entry_at(i) + 12) =~= e.subrange(8, 12));
    assert(out.subrange(entry_at(i) + 12, entry_at(i) + 16) =~= e.subrange(12, 16));
    assert(e.subrange(0, 4) =~= dir_tag(out, i));
    assert(e.subrange(0, 4) =~= dir_tag(font, i));
    assert(out.subrange(entry_at(i) + 8, entry_at(i) + 12) =~= u32_bytes(place));
    lemma_u32_roundtrip(out, entry_at(i) + 8, place);
    assert(out.subrange(entry_at(i) + 12, entry_at(i) + 16) =~= u32_bytes(
        crate::name::entry_length(font, i, new_name),
    ));
    lemma_u32_roundtrip(out, entry_at(i) + 12, crate::name::entry_length(font, i, new_name));
}

/// Does a rewrite of `font` change something, and so lay the file out anew?
pub open spec fn rewrites(font: Seq<u8>) -> bool {
    crate::name::changed_count(crate::name::read_records(font)) > 0
        || crate::name::vendor_differs(font)
}

/// Every `head` table is long enough to hold its checksum adjustment.
pub open spec fn heads_hold_adjustment(font: Seq<u8>) -> bool {
    forall|j: int|
        0 <= j < table_count(font) && #[trigger] dir_tag(font, j) == head_tag() ==> dir_length(
            font,
            j,
        ) >= 12
}

/// In a file laid out anew, directory entry `i` keeps its tag, points at
/// where its table was laid out and gives that table's length; and a table
/// other than `head` is there whole.
#[verifier::spinoff_prover]
proof fn lemma_out_entry(font: Seq<u8>, i: int)
    requires
        spec_rewrite(font) is Rewritten,
        rewrites(font),
        spec_rewrite(font)->Rewritten_0.len() < 4294967296,
        heads_hold_adjustment(font),
        0 <= i < table_count(font),
    ensures
        ({
            let out = spec_rewrite(font)->Rewritten_0;
            let num = table_count(font) as nat;
            let nn = crate::name::new_name_table(font);
            let place = table_place(font, num, nn, i as nat);
            let body = table_body(font, i, nn);
            &&& dir_tag(out, i) == dir_tag(font, i)
            &&& dir_offset(out, i) == place
            &&& dir_length(out, i) == body.len()
            &&& spec_be32(out, entry_at(i) + 4) == spec_checksum(body)
            &&& place >= entry_at(num as int)
            &&& place + body.len() <= out.len()
            &&& dir_tag(font, i) != head_tag() ==> out.subrange(place, place + body.len()) == body
        }),
{
    let out = spec_rewrite(font)->Rewritten_0;
    crate::name::lemma_rewrite_shape(font);
    let num = table_count(font) as nat;
    let new_name = crate::name::new_name_table(font);
    let laid = crate::name::laid_out(font);
    let place = table_place(font, num, new_name, i as nat);
    let body = table_body(font, i, new_name);
    lemma_layout_keeps(font, num, new_name, i as nat, num);
    if dir_tag(font, i) != name_tag() {
        assert(table_fits(font, i));
        assert(body.len() == dir_length(font, i));
    }
    assert(entry_length(font, i, new_name) == body.len());
    match crate::name::laid_head(font) {
        None => {},
        Some(h) => {
            let j = lemma_head_offset(font, num, new_name, num);
            assert(table_fits(font, j as int));
            lemma_layout_keeps(font, num, new_name, j, num);
            if dir_tag(font, i) != head_tag() {
                if (j as int) < i {
                    lemma_places_ordered(font, num, new_name, j, i as nat);
                } else {
                    lemma_places_ordered(font, num, new_name, i as nat, j);
                }
                lemma_adjust_keeps(laid, h, place, body.len() as int);
            }
            lemma_adjust_keeps(laid, h, entry_at(i), 16);
        },
    }
    assert(out.len() >= laid.len());
    lemma_entry_reads(out, font, i, new_name, place);
}

/// A rewrite carries every table but `name`, `OS/2` and `head` across byte for
/// byte: its directory entry keeps its tag and length, and the bytes it points
/// at are the bytes the input's entry pointed at. The outlines do not move.
///
/// Left out: outputs of 4 GiB or more, whose table offsets do not fit their
/// 32-bit fields, and inputs with a `head` table shorter than the 12 bytes its
/// checksum adjustment is written into.
#[verifier::spinoff_prover]
pub proof fn law_tables_carried(font: Seq<u8>, i: int)
    requires
        spec_rewrite(font) is Rewritten,
        spec_rewrite(font)->Rewritten_0.len() < 4294967296,
        heads_hold_adjustment(font),
        0 <= i < table_count(font),
        dir_tag(font, i) != name_tag(),
        dir_tag(font, i) != os2_tag(),
        dir_tag(font, i) != head_tag(),
    ensures
        ({
            let out = spec_rewrite(font)->Rewritten_0;
            &&& dir_tag(out, i) == dir_tag(font, i)
            &&& dir_length(out, i) == dir_length(font, i)
            &&& out.subrange(dir_offset(out, i), dir_offset(out, i) + dir_length(out, i))
                == font.subrange(dir_offset(font, i), dir_offset(font, i) + dir_length(font, i))
        }),
{
    crate::name::lemma_rewrite_shape(font);
    if rewrites(font) {
        lemma_out_entry(font, i);
        assert(table_fits(font, i));
    }
}

// ---------------------------------------------------------------------------
// A `name` table reads back as the records it was built from.
// ---------------------------------------------------------------------------

/// The bytes record `r` stores.
pub open spec fn stored(r: RecordModel) -> Seq<u8> {
    spec_encode(r.platform, r.text)
}

/// A match found is a match.
proof fn lemma_first_match(store: Seq<u8>, bytes: Seq<u8>, p: int)
    requires
        0 <= p,
    ensures
        first_match_from(store, bytes, p) matches Some(at) ==> 0 <= at && at + bytes.len()
            <= store.len() && store.subrange(at, at + bytes.len()) == bytes,
    decreases store.len() + 1 - p,
{
    if p + bytes.len() <= store.len() && store.subrange(p, p + bytes.len()) != bytes {
        lemma_first_match(store, bytes, p + 1);
    }
}

/// The pool holds each record's bytes where its offset says.
proof fn lemma_pool(rs: Seq<RecordModel>, k: nat)
    requires
        k <= rs.len(),
    ensures
        pool(rs, k).1.len() == k,
        forall|j: int|
            0 <= j < k ==> {
                let at = #[trigger] pool(rs, k).1[j];
                &&& 0 <= at
                &&& at + stored(rs[j]).len() <= pool(rs, k).0.len()
                &&& pool(rs, k).0.subrange(at, at + stored(rs[j]).len()) == stored(rs[j])
            },
    decreases k,
{
    if k > 0 {
        lemma_pool(rs, (k - 1) as nat);
        let (store, offsets) = pool(rs, (k - 1) as nat);
        let bytes = stored(rs[k - 1]);
        lemma_first_match(store, bytes, 0);
        assert forall|j: int| 0 <= j < k implies {
            let at = #[trigger] pool(rs, k).1[j];
            &&& 0 <= at
            &&& at + stored(rs[j]).len() <= pool(rs, k).0.len()
            &&& pool(rs, k).0.subrange(at, at + stored(rs[j]).len()) == stored(rs[j])
        } by {
            if j < k - 1 {
                assert(pool(rs, k).1[j] == offsets[j]);
                let at = offsets[j];
                assert(pool(rs, k).0.subrange(at, at + stored(rs[j]).len()) =~= store.subrange(
                    at,
                    at + stored(rs[j]).len(),
                ));
            } else {
                match first_match_from(store, bytes, 0) {
                    Some(at) => {},
                    None => {
                        assert((store + bytes).subrange(store.len() as int, (store.len() + bytes.len()) as int)
                            =~= bytes);
                    },
                }
            }
        }
    }
}

/// The headers of the first `k` records, each where it belongs.
proof fn lemma_headers(rs: Seq<RecordModel>, offsets: Seq<int>, k: nat)
    requires
        k <= rs.len(),
        k <= offsets.len(),
    ensures
        record_headers(rs, offsets, k).len() == 12 * k,
        forall|j: int|
            0 <= j < k ==> #[trigger] record_headers(rs, offsets, k).subrange(12 * j, 12 * j + 12)
                == record_header(rs[j], stored(rs[j]).len() as int, offsets[j]),
    decreases k,
{
    if k > 0 {
        lemma_headers(rs, offsets, (k - 1) as nat);
        let prev = record_headers(rs, offsets, (k - 1) as nat);
        let h = record_header(rs[k - 1], stored(rs[k - 1]).len() as int, offsets[k - 1]);
        assert(h.len() == 12);
        assert forall|j: int| 0 <= j < k implies #[trigger] record_headers(rs, offsets, k).subrange(
            12 * j,
            12 * j + 12,
        ) == record_header(rs[j], stored(rs[j]).len() as int, offsets[j]) by {
            if j < k - 1 {
                assert((prev + h).subrange(12 * j, 12 * j + 12) =~= prev.subrange(12 * j, 12 * j + 12));
            } else {
                assert((prev + h).subrange(12 * j, 12 * j + 12) =~= h);
            }
        }
    }
}

/// The 16-bit fields of a `name` table built from `rs` hold their values whole.
pub open spec fn name_fits(rs: Seq<RecordModel>) -> bool {
    6 + 12 * rs.len() <= 65535 && pool(rs, rs.len()).0.len() <= 65535
}

/// Each field of a record header reads back.
proof fn lemma_header_reads(name: Seq<u8>, at: int, r: RecordModel, len: int, offset: int)
    requires
        0 <= at,
        at + 12 <= name.len(),
        0 <= len < 65536,
        0 <= offset < 65536,
        name.subrange(at, at + 12) == record_header(r, len, offset),
    ensures
        spec_be16(name, at) == r.platform,
        spec_be16(name, at + 2) == r.encoding,
        spec_be16(name, at + 4) == r.language,
        spec_be16(name, at + 6) == r.name,
        spec_be16(name, at + 8) == len,
        spec_be16(name, at + 10) == offset,
{
    let h = name.subrange(at, at + 12);
    assert forall|k: int| 0 <= k < 12 implies name[at + k] == #[trigger] h[k] by {}
    let a = u16_bytes(r.platform as int);
    let b = u16_bytes(r.encoding as int);
    let c = u16_bytes(r.language as int);
    let d = u16_bytes(r.name as int);
    let e = u16_bytes(len);
    let f = u16_bytes(offset);
    assert(h == a + b + c + d + e + f);
    assert(h[0] == a[0] && h[1] == a[1]);
    assert(h[2] == b[0] && h[3] == b[1]);
    assert(h[4] == c[0] && h[5] == c[1]);
    assert(h[6] == d[0] && h[7] == d[1]);
    assert(h[8] == e[0] && h[9] == e[1]);
    assert(h[10] == f[0] && h[11] == f[1]);
    lemma_u16_value(r.platform as int);
    lemma_u16_value(r.encoding as int);
    lemma_u16_value(r.language as int);
    lemma_u16_value(r.name as int);
    lemma_u16_value(len);
    lemma_u16_value(offset);
}

/// The two bytes of a 16-bit value, read big-endian, are the value.
proof fn lemma_u16_value(v: int)
    requires
        0 <= v < 65536,
    ensures
        u16_bytes(v)[0] * 256 + u16_bytes(v)[1] == v,
{
    let w = v as u16;
    assert((w / 256) % 256 * 256 + w % 256 == w) by (bit_vector);
}

/// A `name` table built from `rs` reads back as `rs`, when every string can be
/// pooled, the table's 16-bit fields hold their values, and each record's text
/// survives being written and read back.
pub proof fn law_name_table_roundtrip(rs: Seq<RecordModel>)
    requires
        poolable(rs),
        name_fits(rs),
        forall|k: int|
            0 <= k < rs.len() ==> spec_decode(#[trigger] rs[k].platform, stored(rs[k])) == Some(
                rs[k].text,
            ),
    ensures
        name_records(spec_build_name(rs)) == NameParse::Parsed(rs),
{
    let n = rs.len();
    let (store, offsets) = pool(rs, n);
    lemma_pool(rs, n);
    lemma_headers(rs, offsets, n);
    let headers = record_headers(rs, offsets, n);
    let top = u16_bytes(0) + u16_bytes(n as int) + u16_bytes(6 + 12 * n as int);
    let name = spec_build_name(rs);
    assert(name == top + headers + store);
    assert(top.len() == 6);
    lemma_u16_value(n as int);
    lemma_u16_value(6 + 12 * n as int);
    assert(spec_be16(name, 2) == n) by {
        assert(name[2] == top[2] && name[3] == top[3]);
    }
    assert(spec_be16(name, 4) == 6 + 12 * n) by {
        assert(name[4] == top[4] && name[5] == top[5]);
    }
    assert forall|k: nat| k <= n implies #[trigger] parse_records(name, k) == NameParse::Parsed(
        rs.take(k as int),
    ) by {
        lemma_parse_built(rs, k);
    }
    assert(rs.take(n as int) =~= rs);
}

/// Where record `j` of a built table sits, and what its header says.
proof fn lemma_built_record(rs: Seq<RecordModel>, j: int)
    requires
        0 <= j < rs.len(),
        name_fits(rs),
    ensures
        ({
            let name = spec_build_name(rs);
            let at = record_at(j);
            let len = stored(rs[j]).len() as int;
            let from = spec_be16(name, 4) + spec_be16(name, at + 10);
            &&& at + 12 <= name.len()
            &&& spec_be16(name, at) == rs[j].platform
            &&& spec_be16(name, at + 2) == rs[j].encoding
            &&& spec_be16(name, at + 4) == rs[j].language
            &&& spec_be16(name, at + 6) == rs[j].name
            &&& spec_be16(name, at + 8) == len
            &&& from + len <= name.len()
            &&& name.subrange(from, from + len) == stored(rs[j])
        }),
{
    let n = rs.len();
    let name = spec_build_name(rs);
    let (store, offsets) = pool(rs, n);
    lemma_pool(rs, n);
    lemma_headers(rs, offsets, n);
    let headers = record_headers(rs, offsets, n);
    let top = u16_bytes(0) + u16_bytes(n as int) + u16_bytes(6 + 12 * n as int);
    assert(name == top + headers + store);
    lemma_u16_value(6 + 12 * n as int);
    assert(spec_be16(name, 4) == 6 + 12 * n) by {
        assert(name[4] == top[4] && name[5] == top[5]);
    }
    let at = record_at(j);
    let r = rs[j];
    let len = stored(r).len() as int;
    let off = offsets[j];
    assert(name.subrange(at, at + 12) =~= headers.subrange(12 * j, 12 * j + 12));
    lemma_header_reads(name, at, r, len, off);
    let from = 6 + 12 * n + off;
    assert(name.subrange(from, from + len) =~= store.subrange(off, off + len));
}

/// The first `k` records of a built table read back.
proof fn lemma_parse_built(rs: Seq<RecordModel>, k: nat)
    requires
        k <= rs.len(),
        name_fits(rs),
        forall|j: int|
            0 <= j < rs.len() ==> spec_decode(#[trigger] rs[j].platform, stored(rs[j])) == Some(
                rs[j].text,
            ),
    ensures
        parse_records(spec_build_name(rs), k) == NameParse::Parsed(rs.take(k as int)),
    decreases k,
{
    if k == 0 {
        assert(rs.take(0) =~= seq![]);
    } else {
        lemma_parse_built(rs, (k - 1) as nat);
        let j = k - 1;
        lemma_built_record(rs, j);
        let r = rs[j];
        assert(spec_decode(r.platform, stored(r)) == Some(r.text));
        assert(rs.take(k as int) =~= rs.take(j).push(r));
    }
}

// ---------------------------------------------------------------------------
// Rewriting twice is rewriting once.
// ---------------------------------------------------------------------------

/// Laying out tables never touches the first 12 bytes.
proof fn lemma_layout_head12(font: Seq<u8>, num: nat, new_name: Seq<u8>, n: nat)
    requires
        font.len() >= 12,
        entry_at(num as int) <= font.len(),
        n <= num,
    ensures
        layout(font, num, new_name, n).subrange(0, 12) == font.subrange(0, 12),
    decreases n,
{
    reveal(layout);
    if n == 0 {
        assert(layout(font, num, new_name, 0).subrange(0, 12) =~= font.subrange(0, 12));
    } else {
        lemma_layout_head12(font, num, new_name, (n - 1) as nat);
        crate::name::lemma_layout_len(font, num, new_name, (n - 1) as nat);
        let prev = layout(font, num, new_name, (n - 1) as nat);
        let b = table_body(font, n - 1, new_name);
        lemma_pad_append(prev, b, 0, 12);
        let before = pad4(prev);
        let e = entry_bytes(font, n - 1, new_name, before.len() as int);
        assert(e.len() == 16);
        lemma_write_elsewhere(before + b, entry_at(n - 1), e, 0, 12);
    }
}

/// Searching two directories whose tags agree finds the same entry.
proof fn lemma_find_same(a: Seq<u8>, b: Seq<u8>, num: int, tag: Seq<u8>, k: int)
    requires
        0 <= k,
        forall|i: int| 0 <= i < num ==> #[trigger] dir_tag(a, i) == dir_tag(b, i),
    ensures
        crate::name::find_from(a, num, tag, k) == crate::name::find_from(b, num, tag, k),
    decreases num - k,
{
    if k < num {
        assert(dir_tag(a, k) == dir_tag(b, k));
        lemma_find_same(a, b, num, tag, k + 1);
    }
}

/// Relabelling a relabelled record changes nothing.
proof fn lemma_relabel_fixed(r: RecordModel)
    ensures
        crate::name::relabeled_text(crate::name::relabel(r)) == crate::name::relabeled_text(r),
{
    crate::text::law_renamed_idempotent(r.text);
}

/// Relabelling relabelled records changes none of them.
proof fn lemma_relabel_all_fixed(rs: Seq<RecordModel>)
    ensures
        crate::name::changed_count(crate::name::relabel_all(rs)) == 0,
    decreases rs.len(),
{
    if rs.len() > 0 {
        let all = crate::name::relabel_all(rs);
        assert(all.drop_last() =~= crate::name::relabel_all(rs.drop_last()));
        lemma_relabel_all_fixed(rs.drop_last());
        lemma_relabel_fixed(rs.last());
    }
}

/// Relabelled records read back from the bytes they are written as, when
/// every one that is not on platform 3 held one-byte characters.
proof fn lemma_relabeled_roundtrip(rs: Seq<RecordModel>)
    requires
        forall|j: int|
            0 <= j < rs.len() ==> (#[trigger] rs[j]).platform == 3 || crate::text::is_latin1(
                rs[j].text,
            ),
    ensures
        forall|k: int|
            0 <= k < crate::name::relabel_all(rs).len() ==> spec_decode(
                #[trigger] crate::name::relabel_all(rs)[k].platform,
                stored(crate::name::relabel_all(rs)[k]),
            ) == Some(crate::name::relabel_all(rs)[k].text),
{
    let all = crate::name::relabel_all(rs);
    assert forall|k: int| 0 <= k < all.len() implies spec_decode(
        #[trigger] all[k].platform,
        stored(all[k]),
    ) == Some(all[k].text) by {
        let r = rs[k];
        assert(all[k] == crate::name::relabel(r));
        crate::text::lemma_maker_latin1(r.name);
        if r.platform != 3 {
            crate::text::lemma_renamed_latin1(r.text, 7);
        }
        crate::text::law_record_text_roundtrip(all[k].platform, all[k].text);
    }
}

/// What the conditions of idempotence say.
pub open spec fn settles(font: Seq<u8>) -> bool {
    &&& spec_rewrite(font) is Rewritten
    &&& spec_rewrite(font)->Rewritten_0.len() < 4294967296
    &&& heads_hold_adjustment(font)
    &&& crate::name::find_table(font, os2_tag()) matches Some(j) ==> dir_length(font, j) >= 62
    &&& name_fits(crate::name::relabel_all(crate::name::read_records(font)))
}

/// A file laid out anew starts as the input did and keeps every tag.
#[verifier::spinoff_prover]
proof fn lemma_out_directory(font: Seq<u8>)
    requires
        settles(font),
        rewrites(font),
    ensures
        ({
            let out = spec_rewrite(font)->Rewritten_0;
            &&& out.len() >= 12
            &&& spec_be32(out, 0) == spec_be32(font, 0)
            &&& table_count(out) == table_count(font)
            &&& entry_at(table_count(font)) <= out.len()
            &&& forall|i: int| 0 <= i < table_count(font) ==> #[trigger] dir_tag(out, i) == dir_tag(font, i)
        }),
{
    let out = spec_rewrite(font)->Rewritten_0;
    crate::name::lemma_rewrite_shape(font);
    let num = table_count(font) as nat;
    let nn = crate::name::new_name_table(font);
    let laid = crate::name::laid_out(font);
    lemma_layout_head12(font, num, nn, num);
    crate::name::lemma_layout_len(font, num, nn, num);
    match crate::name::laid_head(font) {
        None => {},
        Some(h) => {
            let j = lemma_head_offset(font, num, nn, num);
            lemma_layout_keeps(font, num, nn, j, num);
            lemma_adjust_keeps(laid, h, 0, 12);
        },
    }
    assert(out.subrange(0, 12) == font.subrange(0, 12));
    assert(out[0] == out.subrange(0, 12)[0] && out[1] == out.subrange(0, 12)[1]);
    assert(out[2] == out.subrange(0, 12)[2] && out[3] == out.subrange(0, 12)[3]);
    assert(out[4] == out.subrange(0, 12)[4] && out[5] == out.subrange(0, 12)[5]);
    assert forall|i: int| 0 <= i < num implies #[trigger] dir_tag(out, i) == dir_tag(font, i) by {
        lemma_out_entry(font, i);
    }
}

/// The new `name` table sits where its entry says.
#[verifier::spinoff_prover]
proof fn lemma_out_name(font: Seq<u8>)
    requires
        spec_rewrite(font) is Rewritten,
        spec_rewrite(font)->Rewritten_0.len() < 4294967296,
        heads_hold_adjustment(font),
        rewrites(font),
    ensures
        ({
            let out = spec_rewrite(font)->Rewritten_0;
            let n = crate::name::name_index(font);
            &&& table_fits(out, n)
            &&& out.subrange(dir_offset(out, n), dir_offset(out, n) + dir_length(out, n))
                == crate::name::new_name_table(font)
        }),
{
    crate::name::lemma_rewrite_shape(font);
    let n = crate::name::name_index(font);
    crate::name::lemma_find_bounds(font, table_count(font), name_tag(), 0);
    assert(dir_tag(font, n) == name_tag());
    lemma_out_entry(font, n);
    let nn = crate::name::new_name_table(font);
    assert(table_body(font, n, nn) == nn);
}

/// The new `name` table reads back as the relabelled records, none of which
/// relabelling would change again.
#[verifier::spinoff_prover]
proof fn lemma_new_name_reads(font: Seq<u8>)
    requires
        spec_rewrite(font) is Rewritten,
        name_fits(crate::name::relabel_all(crate::name::read_records(font))),
        rewrites(font),
    ensures
        name_records(crate::name::new_name_table(font)) == NameParse::Parsed(
            crate::name::relabel_all(crate::name::read_records(font)),
        ),
        crate::name::changed_count(crate::name::relabel_all(crate::name::read_records(font))) == 0,
{
    crate::name::lemma_rewrite_shape(font);
    let rs = crate::name::read_records(font);
    let n = crate::name::name_index(font);
    let name = font.subrange(dir_offset(font, n), dir_offset(font, n) + dir_length(font, n));
    assert(name.len() >= 6);
    crate::name::lemma_parsed_narrow(name, spec_be16(name, 2) as nat);
    lemma_relabeled_roundtrip(rs);
    law_name_table_roundtrip(crate::name::relabel_all(rs));
    lemma_relabel_all_fixed(rs);
}

/// The OS/2 table of a file laid out anew holds our vendor tag where the
/// input's table held its own.
#[verifier::spinoff_prover]
proof fn lemma_out_os2_bytes(font: Seq<u8>, j: int)
    requires
        settles(font),
        rewrites(font),
        0 <= j < table_count(font),
        dir_tag(font, j) == os2_tag(),
        dir_length(font, j) >= 62,
    ensures
        ({
            let out = spec_rewrite(font)->Rewritten_0;
            &&& dir_offset(out, j) + 62 <= out.len()
            &&& out.subrange(dir_offset(out, j) + 58, dir_offset(out, j) + 62)
                == crate::name::vendor_tag()
        }),
{
    let out = spec_rewrite(font)->Rewritten_0;
    law_vendor_written(font, j);
    let before = font.subrange(dir_offset(font, j), dir_offset(font, j) + dir_length(font, j));
    let body = out.subrange(dir_offset(out, j), dir_offset(out, j) + dir_length(out, j));
    assert(before.len() == dir_length(font, j));
    assert(body == write_at(before, 58, crate::name::vendor_tag()));
    assert(body.subrange(58, 62) =~= crate::name::vendor_tag());
    assert(out.subrange(dir_offset(out, j) + 58, dir_offset(out, j) + 62) =~= body.subrange(58, 62));
}

/// The vendor tag of a file laid out anew is ours.
#[verifier::spinoff_prover]
proof fn lemma_out_vendor(font: Seq<u8>)
    requires
        settles(font),
        rewrites(font),
    ensures
        !crate::name::vendor_differs(spec_rewrite(font)->Rewritten_0),
{
    let out = spec_rewrite(font)->Rewritten_0;
    lemma_out_directory(font);
    let num = table_count(font);
    lemma_find_same(out, font, num, os2_tag(), 0);
    assert(crate::name::find_table(out, os2_tag()) == crate::name::find_table(font, os2_tag()));
    match crate::name::find_table(font, os2_tag()) {
        None => {},
        Some(j) => {
            crate::name::lemma_find_bounds(font, num, os2_tag(), 0);
            lemma_out_os2_bytes(font, j);
        },
    }
}

/// Rewriting a rewritten face changes nothing: a sweep over a tree is
/// idempotent, and an already-correct file comes back byte for byte.
///
/// Left out, as inputs on which the second rewrite would change something:
/// outputs of 4 GiB or more, whose offsets do not fit their 32-bit fields; a
/// `head` table shorter than the 12 bytes its checksum adjustment is written
/// into; an `OS/2` table shorter than the 62 bytes that hold its vendor tag,
/// which is then read but never written; and a relabelled `name` table whose
/// record count or string store does not fit its 16-bit fields.
#[verifier::spinoff_prover]
pub proof fn law_rewrite_idempotent(font: Seq<u8>)
    requires
        settles(font),
    ensures
        spec_rewrite(spec_rewrite(font)->Rewritten_0) == Outcome::Rewritten(
            spec_rewrite(font)->Rewritten_0,
            0,
            false,
        ),
{
    let out = spec_rewrite(font)->Rewritten_0;
    crate::name::lemma_rewrite_shape(font);
    let n = crate::name::name_index(font);
    if !rewrites(font) {
        crate::name::lemma_rewrite_unchanged(font, n, crate::name::read_records(font));
    } else {
        let num = table_count(font) as nat;
        lemma_out_directory(font);
        lemma_find_same(out, font, num as int, name_tag(), 0);
        lemma_out_name(font);
        lemma_new_name_reads(font);
        lemma_out_vendor(font);
        crate::name::lemma_rewrite_unchanged(
            out,
            n,
            crate::name::relabel_all(crate::name::read_records(font)),
        );
    }
}

// ---------------------------------------------------------------------------
// The whole file sums to the sfnt magic number.
// ---------------------------------------------------------------------------

/// Writing one aligned word changes the word sum by the difference of the
/// two words.
proof fn lemma_word_sum_write(s: Seq<u8>, a: int, w: Seq<u8>, n: nat)
    requires
        a % 4 == 0,
        0 <= a,
        a + 4 <= s.len(),
        w.len() == 4,
    ensures
        word_sum(write_at(s, a, w), n) == word_sum(s, n) + if a < 4 * n {
            spec_be32(w, 0) - padded_word(s, a)
        } else {
            0
        },
    decreases n,
{
    if n > 0 {
        lemma_word_sum_write(s, a, w, (n - 1) as nat);
        let t = write_at(s, a, w);
        let k = 4 * (n - 1);
        lemma_write_at(s, a, w);
        if k == a {
            assert(t[a] == w[0] && t[a + 1] == w[1] && t[a + 2] == w[2] && t[a + 3] == w[3]) by {
                assert(t.subrange(a, a + 4)[0] == t[a]);
                assert(t.subrange(a, a + 4)[1] == t[a + 1]);
                assert(t.subrange(a, a + 4)[2] == t[a + 2]);
                assert(t.subrange(a, a + 4)[3] == t[a + 3]);
            }
        } else {
            assert(k + 4 <= a || a + 4 <= k);
            assert(padded_word(t, k) == padded_word(s, k));
        }
    }
}

/// A sum plus the adjustment computed from its low 32 bits is the magic
/// number, modulo 2^32.
proof fn lemma_adjustment_mod(z: int, c: u32, adj: u32)
    requires
        z >= 0,
        c == z % 4294967296,
        adj == vstd::wrapping::u32_specs::wrapping_sub(0xB1B0AFBAu32, c),
    ensures
        (z + adj) % 4294967296 == 0xB1B0AFBA,
{
    vstd::arithmetic::div_mod::lemma_fundamental_div_mod(z, 4294967296);
    let q = z / 4294967296;
    assert(z + adj == 4294967296 * q + (c + adj));
    vstd::arithmetic::div_mod::lemma_mod_multiples_vanish(q, c + adj, 4294967296);
    if c + adj >= 4294967296 {
        assert(c + adj == 0xB1B0AFBA + 4294967296);
        vstd::arithmetic::div_mod::lemma_mod_multiples_vanish(1, 0xB1B0AFBA, 4294967296);
        vstd::arithmetic::div_mod::lemma_small_mod(0xB1B0AFBA, 4294967296);
    } else {
        assert(c + adj == 0xB1B0AFBA);
        vstd::arithmetic::div_mod::lemma_small_mod(0xB1B0AFBA, 4294967296);
    }
}

/// Writing the adjustment into a file at an aligned `head` table makes the
/// whole file sum to 0xB1B0AFBA.
proof fn lemma_adjusted_sum(laid: Seq<u8>, h: int)
    requires
        0 <= h,
        h % 4 == 0,
        h + 12 <= laid.len(),
    ensures
        spec_checksum(with_adjustment(laid, h)) == 0xB1B0AFBAu32,
{
    let zeroed = write_at(laid, h + 8, zeros(4));
    let words = ((laid.len() + 3) / 4) as nat;
    lemma_write_at(laid, h + 8, zeros(4));
    let adj = vstd::wrapping::u32_specs::wrapping_sub(0xB1B0AFBAu32, spec_checksum(zeroed));
    let w = u32_bytes(adj as int);
    lemma_write_at(zeroed, h + 8, w);
    lemma_word_sum_write(zeroed, h + 8, w, words);
    assert(padded_word(zeroed, h + 8) == 0) by {
        assert(zeroed.subrange(h + 8, h + 12)[0] == zeroed[h + 8]);
        assert(zeroed.subrange(h + 8, h + 12)[1] == zeroed[h + 9]);
        assert(zeroed.subrange(h + 8, h + 12)[2] == zeroed[h + 10]);
        assert(zeroed.subrange(h + 8, h + 12)[3] == zeroed[h + 11]);
    }
    assert(w.subrange(0, 4) =~= w);
    lemma_u32_roundtrip(w, 0, adj as int);
    let out = write_at(zeroed, h + 8, w);
    let z = word_sum(zeroed, words);
    assert(word_sum(out, words) == z + adj);
    lemma_word_sum_nonneg(zeroed, words);
    lemma_adjustment_mod(z, spec_checksum(zeroed), adj);
}

/// Word sums are sums of nonnegative words.
proof fn lemma_word_sum_nonneg(t: Seq<u8>, n: nat)
    ensures
        word_sum(t, n) >= 0,
    decreases n,
{
    if n > 0 {
        lemma_word_sum_nonneg(t, (n - 1) as nat);
    }
}

/// A rewritten face with a `head` table sums, as a whole, to 0xB1B0AFBA: the
/// checksum adjustment makes it so.
#[verifier::spinoff_prover]
pub proof fn law_file_sums_to_magic(font: Seq<u8>)
    requires
        spec_rewrite(font) is Rewritten,
        rewrites(font),
        crate::name::laid_head(font) is Some,
    ensures
        spec_checksum(spec_rewrite(font)->Rewritten_0) == 0xB1B0AFBAu32,
{
    crate::name::lemma_rewrite_shape(font);
    let num = table_count(font) as nat;
    let nn = crate::name::new_name_table(font);
    let j = lemma_head_offset(font, num, nn, num);
    lemma_layout_keeps(font, num, nn, j, num);
    lemma_adjusted_sum(crate::name::laid_out(font), crate::name::laid_head(font)->0);
}

// ---------------------------------------------------------------------------
// What relabelling touches.
// ---------------------------------------------------------------------------

/// When there is nothing to relabel and the vendor tag is ours, the rewrite
/// hands back the input unchanged.
pub proof fn law_nothing_to_do_is_a_no_op(font: Seq<u8>)
    requires
        spec_rewrite(font) is Rewritten,
        spec_rewrite(font)->Rewritten_1 == 0,
        !spec_rewrite(font)->Rewritten_2,
    ensures
        spec_rewrite(font)->Rewritten_0 == font,
{
    crate::name::lemma_rewrite_shape(font);
}

/// Relabelling rewrites only the records that say who made the face or what
/// family it is: the copyright notice (nameID 0) and every other record keep
/// their text, the maker records name us, and the family records are renamed.
pub proof fn law_relabel_scope(r: RecordModel)
    ensures
        crate::name::relabel(r).platform == r.platform,
        crate::name::relabel(r).encoding == r.encoding,
        crate::name::relabel(r).language == r.language,
        crate::name::relabel(r).name == r.name,
        r.name == 0 ==> crate::name::relabel(r) == r,
        crate::text::maker_text(r.name) is None && !crate::name::is_family_id(r.name)
            ==> crate::name::relabel(r) == r,
        crate::text::maker_text(r.name) matches Some(t) ==> crate::name::relabel(r).text == t,
        crate::name::is_family_id(r.name) ==> crate::name::relabel(r).text == crate::text::spec_renamed(
            r.text,
        ),
{
}

/// A rewrite writes our vendor tag into the OS/2 table and leaves the rest of
/// that table as it was.
///
/// Left out as for `law_tables_carried`: outputs of 4 GiB or more, and `head`
/// tables shorter than 12 bytes.
#[verifier::spinoff_prover]
pub proof fn law_vendor_written(font: Seq<u8>, i: int)
    requires
        spec_rewrite(font) is Rewritten,
        rewrites(font),
        spec_rewrite(font)->Rewritten_0.len() < 4294967296,
        heads_hold_adjustment(font),
        0 <= i < table_count(font),
        dir_tag(font, i) == os2_tag(),
        dir_length(font, i) >= 62,
    ensures
        ({
            let out = spec_rewrite(font)->Rewritten_0;
            let before = font.subrange(dir_offset(font, i), dir_offset(font, i) + dir_length(font, i));
            &&& dir_tag(out, i) == os2_tag()
            &&& table_fits(font, i)
            &&& dir_length(out, i) == dir_length(font, i)
            &&& dir_offset(out, i) + dir_length(out, i) <= out.len()
            &&& out.subrange(dir_offset(out, i), dir_offset(out, i) + dir_length(out, i))
                == write_at(before, 58, crate::name::vendor_tag())
        }),
{
    crate::name::lemma_rewrite_shape(font);
    lemma_out_entry(font, i);
    assert(os2_tag() != name_tag()) by {
        assert(os2_tag()[0] != name_tag()[0]);
    }
    assert(table_fits(font, i));
}

/// Every directory entry but `head`'s carries the checksum of the table it
/// points at. (`head`'s is taken before its adjustment is written, as the
/// format asks.)
///
/// Left out as for `law_tables_carried`: outputs of 4 GiB or more, and `head`
/// tables shorter than 12 bytes.
#[verifier::spinoff_prover]
pub proof fn law_entry_checksums(font: Seq<u8>, i: int)
    requires
        spec_rewrite(font) is Rewritten,
        rewrites(font),
        spec_rewrite(font)->Rewritten_0.len() < 4294967296,
        heads_hold_adjustment(font),
        0 <= i < table_count(font),
        dir_tag(font, i) != head_tag(),
    ensures
        ({
            let out = spec_rewrite(font)->Rewritten_0;
            spec_be32(out, entry_at(i) + 4) == spec_checksum(
                out.subrange(dir_offset(out, i), dir_offset(out, i) + dir_length(out, i)),
            )
        }),
{
    lemma_out_entry(font, i);
}

/// A rewrite that lays the file out anew keeps the table directory's order:
/// the same number of tables, each entry with the tag it had, each table laid
/// out after the directory and after the tables listed before it.
///
/// Left out as for `law_tables_carried`: outputs of 4 GiB or more, and `head`
/// tables shorter than 12 bytes.
#[verifier::spinoff_prover]
pub proof fn law_directory_order_kept(font: Seq<u8>, i: int, k: int)
    requires
        spec_rewrite(font) is Rewritten,
        rewrites(font),
        spec_rewrite(font)->Rewritten_0.len() < 4294967296,
        heads_hold_adjustment(font),
        0 <= i < k < table_count(font),
    ensures
        ({
            let out = spec_rewrite(font)->Rewritten_0;
            &&& table_count(out) == table_count(font)
            &&& dir_tag(out, i) == dir_tag(font, i)
            &&& dir_offset(out, i) >= entry_at(table_count(font))
            &&& dir_offset(out, i) + dir_length(out, i) <= dir_offset(out, k)
        }),
{
    crate::name::lemma_rewrite_shape(font);
    let out = spec_rewrite(font)->Rewritten_0;
    let num = table_count(font) as nat;
    let nn = crate::name::new_name_table(font);
    lemma_out_entry(font, i);
    lemma_out_entry(font, k);
    lemma_places_ordered(font, num, nn, i as nat, k as nat);
    lemma_layout_head12(font, num, nn, num);
    crate::name::lemma_layout_len(font, num, nn, num);
    let laid = crate::name::laid_out(font);
    match crate::name::laid_head(font) {
        None => {},
        Some(h) => {
            let j = lemma_head_offset(font, num, nn, num);
            lemma_layout_keeps(font, num, nn, j, num);
            lemma_adjust_keeps(laid, h, 0, 12);
        },
    }
    assert(out[4] == out.subrange(0, 12)[4] && out[5] == out.subrange(0, 12)[5]);
}

/// The `name` table a rewrite writes, read back where its directory entry
/// points, gives the records the input's table held, relabelled: the family
/// renamed, the maker named, every other record as it was, in table order.
///
/// Left out: outputs of 4 GiB or more, `head` tables shorter than 12 bytes,
/// and relabelled tables whose record count or string store does not fit the
/// 16-bit fields that locate them.
pub proof fn law_name_table_relabelled(font: Seq<u8>)
    requires
        spec_rewrite(font) is Rewritten,
        rewrites(font),
        spec_rewrite(font)->Rewritten_0.len() < 4294967296,
        heads_hold_adjustment(font),
        name_fits(crate::name::relabel_all(crate::name::read_records(font))),
    ensures
        ({
            let out = spec_rewrite(font)->Rewritten_0;
            let n = crate::name::name_index(font);
            &&& dir_tag(out, n) == name_tag()
            &&& table_fits(out, n)
            &&& name_records(out.subrange(dir_offset(out, n), dir_offset(out, n) + dir_length(out, n)))
                == NameParse::Parsed(crate::name::relabel_all(crate::name::read_records(font)))
        }),
{
    crate::name::lemma_rewrite_shape(font);
    crate::name::lemma_find_bounds(font, table_count(font), name_tag(), 0);
    lemma_out_entry(font, crate::name::name_index(font));
    lemma_out_name(font);
    lemma_new_name_reads(font);
}

/// Sequences that read alike byte for byte, zero past their ends, have the
/// same word sums.
proof fn lemma_word_sum_alike(x: Seq<u8>, y: Seq<u8>, n: nat)
    requires
        forall|i: int| byte_or_zero(x, i) == byte_or_zero(y, i),
    ensures
        word_sum(x, n) == word_sum(y, n),
    decreases n,
{
    if n > 0 {
        let at = 4 * (n - 1);
        assert(byte_or_zero(x, at) == byte_or_zero(y, at));
        assert(byte_or_zero(x, at + 1) == byte_or_zero(y, at + 1));
        assert(byte_or_zero(x, at + 2) == byte_or_zero(y, at + 2));
        assert(byte_or_zero(x, at + 3) == byte_or_zero(y, at + 3));
        lemma_word_sum_alike(x, y, (n - 1) as nat);
    }
}

/// Words past the end of `t` add nothing.
proof fn lemma_word_sum_past_end(t: Seq<u8>, n: nat)
    requires
        n >= (t.len() + 3) / 4,
    ensures
        word_sum(t, n) == word_sum(t, ((t.len() + 3) / 4) as nat),
    decreases n,
{
    if n > (t.len() + 3) / 4 {
        let at = 4 * (n - 1);
        assert(at >= t.len());
        assert(padded_word(t, at) == 0);
        lemma_word_sum_past_end(t, (n - 1) as nat);
    }
}

/// The first words of `a + b`, while they lie in `a`, are those of `a`.
proof fn lemma_word_sum_front(a: Seq<u8>, b: Seq<u8>, n: nat)
    requires
        4 * n <= a.len(),
    ensures
        word_sum(a + b, n) == word_sum(a, n),
    decreases n,
{
    if n > 0 {
        let at = 4 * (n - 1);
        assert(padded_word(a + b, at) == padded_word(a, at));
        lemma_word_sum_front(a, b, (n - 1) as nat);
    }
}

/// Past a four-byte-aligned `a`, the words of `a + b` are those of `b`.
proof fn lemma_word_sum_back(a: Seq<u8>, b: Seq<u8>, j: nat)
    requires
        a.len() % 4 == 0,
    ensures
        word_sum(a + b, (a.len() / 4 + j) as nat) == word_sum(a, (a.len() / 4) as nat) + word_sum(b, j),
    decreases j,
{
    let m = a.len() / 4;
    if j == 0 {
        lemma_word_sum_front(a, b, m as nat);
    } else {
        let at = 4 * (j - 1);
        assert(4 * (m + j - 1) == a.len() + at);
        assert(byte_or_zero(a + b, a.len() + at) == byte_or_zero(b, at));
        assert(byte_or_zero(a + b, a.len() + at + 1) == byte_or_zero(b, at + 1));
        assert(byte_or_zero(a + b, a.len() + at + 2) == byte_or_zero(b, at + 2));
        assert(byte_or_zero(a + b, a.len() + at + 3) == byte_or_zero(b, at + 3));
        lemma_word_sum_back(a, b, (j - 1) as nat);
    }
}

/// The checksum of a four-byte-aligned `a` followed by `b` is the wrapping sum
/// of their checksums: a table's checksum can be taken piece by piece.
pub proof fn law_checksum_of_concatenation(a: Seq<u8>, b: Seq<u8>)
    requires
        a.len() % 4 == 0,
    ensures
        spec_checksum(a + b) == ((spec_checksum(a) + spec_checksum(b)) % 0x1_0000_0000) as u32,
{
    let m = a.len() / 4;
    let j = (b.len() + 3) / 4;
    assert((a + b).len() == a.len() + b.len());
    assert(((a + b).len() + 3) / 4 == m + j);
    assert((a.len() + 3) / 4 == m);
    lemma_word_sum_back(a, b, j as nat);
    let x = word_sum(a, m as nat);
    let y = word_sum(b, j as nat);
    lemma_word_sum_nonneg(a, m as nat);
    lemma_word_sum_nonneg(b, j as nat);
    vstd::arithmetic::div_mod::lemma_add_mod_noop(x, y, 0x1_0000_0000);
}

/// Zero bytes at the end of a table leave its checksum as it was: the
/// checksum already reads the table as zero-padded.
pub proof fn law_checksum_ignores_zero_padding(t: Seq<u8>, k: nat)
    ensures
        spec_checksum(t + zeros(k)) == spec_checksum(t),
{
    let p = t + zeros(k);
    assert forall|i: int| byte_or_zero(p, i) == byte_or_zero(t, i) by {
        if t.len() <= i < p.len() {
            assert(p[i] == zeros(k)[i - t.len()]);
        }
    }
    let n = ((p.len() + 3) / 4) as nat;
    lemma_word_sum_alike(p, t, n);
    lemma_word_sum_past_end(t, n);
}

/// Relabelling by nameID, with the sets written out: the family records
/// (1, 3, 4, 6, 16, 18, 21, 25) have every "Geist" replaced by "Zen"; the
/// manufacturer and designer (8, 9) become "Hanzo AI, Inc."; the vendor and
/// designer URLs (11, 12) become "https://hanzo.ai"; every other record, the
/// copyright (0) and the licence URL (14) among them, is left as it was. The
/// selectors never change.
pub proof fn law_relabel_by_name_id(r: RecordModel)
    ensures
        crate::name::relabel(r).platform == r.platform,
        crate::name::relabel(r).encoding == r.encoding,
        crate::name::relabel(r).language == r.language,
        crate::name::relabel(r).name == r.name,
        (r.name == 1 || r.name == 3 || r.name == 4 || r.name == 6 || r.name == 16 || r.name == 18
            || r.name == 21 || r.name == 25) ==> crate::name::relabel(r).text
            == crate::text::replace_all(r.text, "Geist"@, "Zen"@),
        (r.name == 8 || r.name == 9) ==> crate::name::relabel(r).text == "Hanzo AI, Inc."@,
        (r.name == 11 || r.name == 12) ==> crate::name::relabel(r).text == "https://hanzo.ai"@,
        !(r.name == 1 || r.name == 3 || r.name == 4 || r.name == 6 || r.name == 16 || r.name == 18
            || r.name == 21 || r.name == 25 || r.name == 8 || r.name == 9 || r.name == 11
            || r.name == 12) ==> crate::name::relabel(r) == r,
{
    crate::text::law_renamed_replaces_geist(r.text);
    crate::text::law_maker_ids(r.name);
}

} // verus!
