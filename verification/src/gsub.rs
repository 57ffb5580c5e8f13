//! Which glyph a cut draws in place of which: the single substitutions that
//! named layout features perform, read from a font's GSUB table.
//!
//! Only single substitution is honoured, because that is what a stylistic set
//! on this family is: one letterform for another. A ligature or a contextual
//! rule depends on what is beside it and cannot be baked into a glyph.
use vstd::prelude::*;
use std::collections::HashMap;
use skrifa::raw::tables::gsub::{SingleSubst, SubstitutionLookup};
use skrifa::raw::types::Tag;
use skrifa::raw::{FontRef, TableProvider};

verus! {

/// A single-substitution subtable, as plain values.
pub enum SingleSubtable {
    /// Every covered glyph moves by one signed distance (formats 1 and 3).
    Delta { coverage: Vec<u32>, delta: i32 },
    /// The covered glyph at each place becomes the substitute at the same
    /// place (formats 2 and 4).
    Pairs { coverage: Vec<u32>, substitutes: Vec<u32> },
}

/// What a [`SingleSubtable`] holds.
pub enum SubtableModel {
    Delta { coverage: Seq<u32>, delta: i32 },
    Pairs { coverage: Seq<u32>, substitutes: Seq<u32> },
}

impl DeepView for SingleSubtable {
    type V = SubtableModel;

    open spec fn deep_view(&self) -> SubtableModel {
        match self {
            SingleSubtable::Delta { coverage, delta } => SubtableModel::Delta {
                coverage: coverage@,
                delta: *delta,
            },
            SingleSubtable::Pairs { coverage, substitutes } => SubtableModel::Pairs {
                coverage: coverage@,
                substitutes: substitutes@,
            },
        }
    }
}

/// Glyph `g` moved by `delta`, as a 32-bit id (so modulo 2^32).
pub open spec fn shifted(g: u32, delta: i32) -> u32 {
    ((g + delta) % 0x1_0000_0000) as u32
}

/// The (from, to) pairs that one subtable maps, in coverage order. Where a
/// subtable lists fewer substitutes than it covers glyphs, the glyphs past the
/// last substitute are left alone.
pub open spec fn subtable_pairs(t: SubtableModel) -> Seq<(u32, u32)> {
    match t {
        SubtableModel::Delta { coverage, delta } => Seq::new(
            coverage.len(),
            |i: int| (coverage[i], shifted(coverage[i], delta)),
        ),
        SubtableModel::Pairs { coverage, substitutes } => Seq::new(
            if coverage.len() <= substitutes.len() {
                coverage.len()
            } else {
                substitutes.len()
            },
            |i: int| (coverage[i], substitutes[i]),
        ),
    }
}

/// The pairs of a lookup's subtables, one subtable after another.
pub open spec fn tables_pairs(ts: Seq<SubtableModel>) -> Seq<(u32, u32)>
    decreases ts.len(),
{
    if ts.len() == 0 {
        Seq::empty()
    } else {
        tables_pairs(ts.drop_last()) + subtable_pairs(ts.last())
    }
}

/// The pairs of the lookup at `index`: none where there is no lookup there, or
/// it is not a single substitution.
pub open spec fn lookup_pairs(index: u16, lookups: Seq<Option<Seq<SubtableModel>>>) -> Seq<
    (u32, u32),
> {
    if index < lookups.len() {
        match lookups[index as int] {
            Some(ts) => tables_pairs(ts),
            None => Seq::empty(),
        }
    } else {
        Seq::empty()
    }
}

/// The pairs of a feature's lookups, in the order the feature lists them.
pub open spec fn indices_pairs(indices: Seq<u16>, lookups: Seq<Option<Seq<SubtableModel>>>) -> Seq<
    (u32, u32),
>
    decreases indices.len(),
{
    if indices.len() == 0 {
        Seq::empty()
    } else {
        indices_pairs(indices.drop_last(), lookups) + lookup_pairs(indices.last(), lookups)
    }
}

/// The pairs of every feature record whose tag is wanted, in the order the
/// feature list holds the records. A record is (tag, lookup indices).
pub open spec fn features_pairs(
    features: Seq<(u32, Seq<u16>)>,
    lookups: Seq<Option<Seq<SubtableModel>>>,
    wanted: Seq<u32>,
) -> Seq<(u32, u32)>
    decreases features.len(),
{
    if features.len() == 0 {
        Seq::empty()
    } else {
        let f = features.last();
        features_pairs(features.drop_last(), lookups, wanted) + if wanted.contains(f.0) {
            indices_pairs(f.1, lookups)
        } else {
            Seq::empty()
        }
    }
}

/// `m` with each pair written into it in turn, so that a later pair for a
/// glyph overrides an earlier one.
pub open spec fn written(m: Map<u32, u32>, pairs: Seq<(u32, u32)>) -> Map<u32, u32>
    decreases pairs.len(),
{
    if pairs.len() == 0 {
        m
    } else {
        written(m, pairs.drop_last()).insert(pairs.last().0, pairs.last().1)
    }
}

/// Every single substitution the wanted features perform, as old id -> new id.
pub open spec fn spec_feature_substitutions(
    features: Seq<(u32, Seq<u16>)>,
    lookups: Seq<Option<Seq<SubtableModel>>>,
    wanted: Seq<u32>,
) -> Map<u32, u32> {
    written(Map::empty(), features_pairs(features, lookups, wanted))
}

/// Writing `a` and then `b` is writing `a + b`.
proof fn lemma_written_concat(m: Map<u32, u32>, a: Seq<(u32, u32)>, b: Seq<(u32, u32)>)
    ensures
        written(m, a + b) == written(written(m, a), b),
    decreases b.len(),
{
    if b.len() == 0 {
        assert(a + b =~= a);
    } else {
        assert((a + b).drop_last() =~= a + b.drop_last());
        lemma_written_concat(m, a, b.drop_last());
    }
}

/// Write the pairs of one subtable into `map`.
fn write_subtable(map: &mut HashMap<u32, u32>, t: &SingleSubtable)
    ensures
        final(map)@ == written(old(map)@, subtable_pairs(t.deep_view())),
{
    let ghost pairs = subtable_pairs(t.deep_view());
    match t {
        SingleSubtable::Delta { coverage, delta } => {
            let mut i: usize = 0;
            while i < coverage.len()
                invariant
                    pairs == subtable_pairs(t.deep_view()),
                    t.deep_view() == (SubtableModel::Delta { coverage: coverage@, delta: *delta }),
                    i <= coverage@.len(),
                    map@ == written(old(map)@, pairs.take(i as int)),
                decreases coverage@.len() - i,
            {
                let g = coverage[i];
                let s: i64 = g as i64 + *delta as i64;
                let to: u32 = if s < 0 {
                    (s + 0x1_0000_0000) as u32
                } else if s >= 0x1_0000_0000 {
                    (s - 0x1_0000_0000) as u32
                } else {
                    s as u32
                };
                assert(to == shifted(g, *delta));
                assert(pairs.take(i + 1).drop_last() =~= pairs.take(i as int));
                map.insert(g, to);
                i = i + 1;
            }
            assert(pairs.take(coverage@.len() as int) =~= pairs);
        },
        SingleSubtable::Pairs { coverage, substitutes } => {
            let n = if coverage.len() <= substitutes.len() {
                coverage.len()
            } else {
                substitutes.len()
            };
            let mut i: usize = 0;
            while i < n
                invariant
                    pairs == subtable_pairs(t.deep_view()),
                    t.deep_view() == (SubtableModel::Pairs {
                        coverage: coverage@,
                        substitutes: substitutes@,
                    }),
                    n == pairs.len(),
                    n <= coverage@.len(),
                    n <= substitutes@.len(),
                    i <= n,
                    map@ == written(old(map)@, pairs.take(i as int)),
                decreases n - i,
            {
                assert(pairs.take(i + 1).drop_last() =~= pairs.take(i as int));
                map.insert(coverage[i], substitutes[i]);
                i = i + 1;
            }
            assert(pairs.take(n as int) =~= pairs);
        },
    }
}

/// Write the pairs of the lookup at `index` into `map`.
fn write_lookup(map: &mut HashMap<u32, u32>, lookups: &[Option<Vec<SingleSubtable>>], index: u16)
    ensures
        final(map)@ == written(old(map)@, lookup_pairs(index, lookups.deep_view())),
{
    let i = index as usize;
    if i < lookups.len() {
        match &lookups[i] {
            Some(tables) => {
                let ghost ts = tables.deep_view();
                assert(lookups.deep_view()[i as int] == Some(ts));
                let mut k: usize = 0;
                while k < tables.len()
                    invariant
                        ts == tables.deep_view(),
                        k <= tables@.len(),
                        map@ == written(old(map)@, tables_pairs(ts.take(k as int))),
                    decreases tables@.len() - k,
                {
                    proof {
                        assert(ts.take(k + 1).drop_last() =~= ts.take(k as int));
                        lemma_written_concat(
                            old(map)@,
                            tables_pairs(ts.take(k as int)),
                            subtable_pairs(ts[k as int]),
                        );
                    }
                    write_subtable(map, &tables[k]);
                    k = k + 1;
                }
                assert(ts.take(tables@.len() as int) =~= ts);
            },
            None => {},
        }
    }
}

/// Write the pairs of a feature's lookups into `map`.
fn write_feature(
    map: &mut HashMap<u32, u32>,
    indices: &Vec<u16>,
    lookups: &[Option<Vec<SingleSubtable>>],
)
    ensures
        final(map)@ == written(old(map)@, indices_pairs(indices@, lookups.deep_view())),
{
    let mut j: usize = 0;
    while j < indices.len()
        invariant
            j <= indices@.len(),
            map@ == written(old(map)@, indices_pairs(indices@.take(j as int), lookups.deep_view())),
        decreases indices@.len() - j,
    {
        proof {
            assert(indices@.take(j + 1).drop_last() =~= indices@.take(j as int));
            lemma_written_concat(
                old(map)@,
                indices_pairs(indices@.take(j as int), lookups.deep_view()),
                lookup_pairs(indices@[j as int], lookups.deep_view()),
            );
        }
        write_lookup(map, lookups, indices[j]);
        j = j + 1;
    }
    assert(indices@.take(indices@.len() as int) =~= indices@);
}

/// Is `tag` among `wanted`?
fn is_wanted(wanted: &[u32], tag: u32) -> (r: bool)
    ensures
        r == wanted@.contains(tag),
{
    let mut i: usize = 0;
    while i < wanted.len()
        invariant
            i <= wanted@.len(),
            forall|j: int| 0 <= j < i ==> wanted@[j] != tag,
        decreases wanted@.len() - i,
    {
        if wanted[i] == tag {
            assert(wanted@[i as int] == tag);
            return true;
        }
        i = i + 1;
    }
    false
}

/// Every single substitution that the feature records whose tags are wanted
/// perform, as old id -> new id. A record is (tag, lookup indices); `lookups`
/// holds, for each lookup of the font, its subtables where it is a single
/// substitution and `None` where it is not. Records are taken in order, each
/// one's lookups in the order it lists them, and a later substitution of a
/// glyph overrides an earlier one.
pub fn feature_substitutions(
    features: &[(u32, Vec<u16>)],
    lookups: &[Option<Vec<SingleSubtable>>],
    wanted: &[u32],
) -> (r: HashMap<u32, u32>)
    ensures
        r@ == spec_feature_substitutions(features.deep_view(), lookups.deep_view(), wanted@),
{
    let ghost fs = features.deep_view();
    let mut map: HashMap<u32, u32> = HashMap::new();
    let mut i: usize = 0;
    while i < features.len()
        invariant
            fs == features.deep_view(),
            i <= fs.len(),
            map@ == written(Map::empty(), features_pairs(fs.take(i as int), lookups.deep_view(), wanted@)),
        decreases fs.len() - i,
    {
        let (tag, indices) = &features[i];
        proof {
            assert(fs.take(i + 1).drop_last() =~= fs.take(i as int));
            assert(fs[i as int] == (*tag, indices@));
        }
        if is_wanted(wanted, *tag) {
            write_feature(&mut map, indices, lookups);
            proof {
                lemma_written_concat(
                    Map::empty(),
                    features_pairs(fs.take(i as int), lookups.deep_view(), wanted@),
                    indices_pairs(indices@, lookups.deep_view()),
                );
            }
        } else {
            assert(features_pairs(fs.take(i + 1), lookups.deep_view(), wanted@) =~= features_pairs(
                fs.take(i as int),
                lookups.deep_view(),
                wanted@,
            ));
        }
        i = i + 1;
    }
    assert(fs.take(fs.len() as int) =~= fs);
    map
}

/// Is `c` a character a tag may hold: printable ASCII?
pub open spec fn tag_char(c: char) -> bool {
    0x20 <= c as u32 <= 0x7e
}

/// The byte of a tag named `s` at `i`: its character, or a space past its end.
pub open spec fn tag_byte(s: Seq<char>, i: int) -> u32 {
    if i < s.len() {
        s[i] as u32
    } else {
        0x20
    }
}

/// The tag named by `s`, as the big-endian number of its four bytes: one to
/// four printable ASCII characters, the first not a space and none but spaces
/// after a space, padded with spaces to four. `None` for any other name.
pub open spec fn tag_value(s: Seq<char>) -> Option<u32> {
    if 1 <= s.len() <= 4 && s[0] != ' ' && (forall|i: int| 0 <= i < s.len() ==> tag_char(
        #[trigger] s[i],
    )) && (forall|i: int, j: int|
        #![trigger s[i], s[j]]
        0 <= i < j < s.len() && s[i] == ' ' ==> s[j] == ' ') {
        Some(
            (tag_byte(s, 0) * 0x100_0000 + tag_byte(s, 1) * 0x1_0000 + tag_byte(s, 2) * 0x100
                + tag_byte(s, 3)) as u32,
        )
    } else {
        None
    }
}

/// The tags of the feature names that are tags, in order; the others are
/// dropped.
pub open spec fn wanted_tags(names: Seq<&str>) -> Seq<u32>
    decreases names.len(),
{
    if names.len() == 0 {
        Seq::empty()
    } else {
        match tag_value(names.last()@) {
            Some(t) => wanted_tags(names.drop_last()).push(t),
            None => wanted_tags(names.drop_last()),
        }
    }
}

/// The feature records of a font's GSUB feature list, as (tag, lookup indices).
pub uninterp spec fn feature_records(font: Seq<u8>) -> Seq<(u32, Seq<u16>)>;

/// For each lookup of a font's GSUB lookup list, its number of subtables where
/// it is a single substitution.
pub uninterp spec fn lookup_shapes(font: Seq<u8>) -> Seq<Option<usize>>;

/// The glyphs that subtable `k` of lookup `lookup` covers.
pub uninterp spec fn subtable_coverage(font: Seq<u8>, lookup: usize, k: usize) -> Option<Seq<u32>>;

/// The distance by which subtable `k` of lookup `lookup` moves glyphs.
pub uninterp spec fn subtable_delta(font: Seq<u8>, lookup: usize, k: usize) -> Option<i32>;

/// The substitutes that subtable `k` of lookup `lookup` lists.
pub uninterp spec fn subtable_substitutes(font: Seq<u8>, lookup: usize, k: usize) -> Option<
    Seq<u32>,
>;

/// Subtable `k` of lookup `lookup`, where it reads.
pub open spec fn subtable_at(font: Seq<u8>, lookup: usize, k: usize) -> Option<SubtableModel> {
    match subtable_coverage(font, lookup, k) {
        None => None,
        Some(coverage) => match subtable_delta(font, lookup, k) {
            Some(delta) => Some(SubtableModel::Delta { coverage, delta }),
            None => match subtable_substitutes(font, lookup, k) {
                Some(substitutes) => Some(SubtableModel::Pairs { coverage, substitutes }),
                None => None,
            },
        },
    }
}

/// The first `n` subtables of lookup `lookup` that read, in order.
pub open spec fn tables_of(font: Seq<u8>, lookup: usize, n: nat) -> Seq<SubtableModel>
    decreases n,
{
    if n == 0 {
        Seq::empty()
    } else {
        let before = tables_of(font, lookup, (n - 1) as nat);
        match subtable_at(font, lookup, (n - 1) as usize) {
            Some(t) => before.push(t),
            None => before,
        }
    }
}

/// A font's GSUB lookups: the subtables of each single substitution, `None`
/// for every other lookup.
pub open spec fn font_lookups(font: Seq<u8>) -> Seq<Option<Seq<SubtableModel>>> {
    let shapes = lookup_shapes(font);
    Seq::new(
        shapes.len(),
        |i: int|
            match shapes[i] {
                Some(n) => Some(tables_of(font, i as usize, n as nat)),
                None => None,
            },
    )
}

/// skrifa's `Tag::new_checked` on the bytes of `name`, the tag given back as
/// the big-endian number of its four bytes. Its source accepts one to four
/// bytes of printable ASCII, none a space at the start and none but spaces
/// after a space, and pads them with spaces; a name in any character past
/// ASCII has a byte past 0x7E and is refused.
#[verifier::external_body]
fn feature_tag(name: &str) -> (r: Option<u32>)
    ensures
        r == tag_value(name@),
{
    Tag::new_checked(name.as_bytes()).ok().map(|t| u32::from_be_bytes(t.to_be_bytes()))
}

/// The feature records of `font` through skrifa (`FontRef::new`, `gsub`,
/// `feature_list`, `feature_records`, `feature`, `lookup_list_indices`), named
/// `feature_records`: each record's tag as the big-endian number of its bytes,
/// and the lookup indices of its feature, none where the feature does not
/// read. No records where the font, its GSUB or its feature list does not read.
#[verifier::external_body]
fn gsub_feature_records(font: &[u8]) -> (r: Vec<(u32, Vec<u16>)>)
    ensures
        r.deep_view() == feature_records(font@),
{
    let Some(list) = FontRef::new(font).ok().and_then(|f| f.gsub().ok()).and_then(
        |g| g.feature_list().ok(),
    ) else {
        return Vec::new();
    };
    list.feature_records().iter().map(|rec| {
        let feature = rec.feature(list.offset_data());
        let indices = feature.map(|f| f.lookup_list_indices().iter().map(|i| i.get()).collect());
        (u32::from_be_bytes(rec.feature_tag().to_be_bytes()), indices.unwrap_or_default())
    }).collect()
}

/// The lookups of `font` through skrifa (`FontRef::new`, `gsub`,
/// `lookup_list`, `lookups`, `subtables`), named `lookup_shapes`: for each
/// lookup, the number of its subtables where it reads as a single
/// substitution, `None` for any other. None where the font, its GSUB or its
/// lookup list does not read.
#[verifier::external_body]
fn gsub_lookup_shapes(font: &[u8]) -> (r: Vec<Option<usize>>)
    ensures
        r@ == lookup_shapes(font@),
{
    let Some(list) = FontRef::new(font).ok().and_then(|f| f.gsub().ok()).and_then(
        |g| g.lookup_list().ok(),
    ) else {
        return Vec::new();
    };
    list.lookups().iter().map(|l| match l {
        Ok(SubstitutionLookup::Single(single)) => Some(single.subtables().len()),
        _ => None,
    }).collect()
}

/// The coverage of subtable `k` of lookup `lookup` of `font` through skrifa
/// (`lookups().get`, `subtables().get`, `coverage`, `CoverageTable::iter`),
/// named `subtable_coverage`: the covered glyphs in coverage order, `None`
/// where the lookup is not a single substitution or the subtable or its
/// coverage does not read.
#[verifier::external_body]
fn gsub_subtable_coverage(font: &[u8], lookup: usize, k: usize) -> (r: Option<Vec<u32>>)
    ensures
        r.deep_view() == subtable_coverage(font@, lookup, k),
{
    let lookups = FontRef::new(font).ok()?.gsub().ok()?.lookup_list().ok()?.lookups();
    let Ok(SubstitutionLookup::Single(single)) = lookups.get(lookup) else {
        return None;
    };
    let coverage = match single.subtables().get(k).ok()? {
        SingleSubst::Format1(t) => t.coverage(),
        SingleSubst::Format2(t) => t.coverage(),
        SingleSubst::Format3(t) => t.coverage(),
        SingleSubst::Format4(t) => t.coverage(),
    };
    Some(coverage.ok()?.iter().map(|g| g.to_u32()).collect())
}

/// The glyph delta of subtable `k` of lookup `lookup` of `font` through skrifa
/// (`delta_glyph_id` of formats 1 and 3), named `subtable_delta`; `None` for
/// the other formats, or where the lookup is not a single substitution or the
/// subtable does not read.
#[verifier::external_body]
fn gsub_subtable_delta(font: &[u8], lookup: usize, k: usize) -> (r: Option<i32>)
    ensures
        r == subtable_delta(font@, lookup, k),
{
    let lookups = FontRef::new(font).ok()?.gsub().ok()?.lookup_list().ok()?.lookups();
    let Ok(SubstitutionLookup::Single(single)) = lookups.get(lookup) else {
        return None;
    };
    match single.subtables().get(k).ok()? {
        SingleSubst::Format1(t) => Some(t.delta_glyph_id() as i32),
        SingleSubst::Format2(_) => None,
        SingleSubst::Format3(t) => Some(t.delta_glyph_id().to_i32()),
        SingleSubst::Format4(_) => None,
    }
}

/// The substitutes of subtable `k` of lookup `lookup` of `font` through skrifa
/// (`substitute_glyph_ids` of formats 2 and 4), named `subtable_substitutes`,
/// in the order the subtable lists them; `None` for the other formats, or
/// where the lookup is not a single substitution or the subtable does not read.
#[verifier::external_body]
fn gsub_subtable_substitutes(font: &[u8], lookup: usize, k: usize) -> (r: Option<Vec<u32>>)
    ensures
        r.deep_view() == subtable_substitutes(font@, lookup, k),
{
    let lookups = FontRef::new(font).ok()?.gsub().ok()?.lookup_list().ok()?.lookups();
    let Ok(SubstitutionLookup::Single(single)) = lookups.get(lookup) else {
        return None;
    };
    match single.subtables().get(k).ok()? {
        SingleSubst::Format1(_) => None,
        SingleSubst::Format2(t) => Some(t.substitute_glyph_ids().iter().map(|g| g.get().to_u32()).collect()),
        SingleSubst::Format3(_) => None,
        SingleSubst::Format4(t) => Some(t.substitute_glyph_ids().iter().map(|g| g.get().to_u32()).collect()),
    }
}

/// Subtable `k` of lookup `lookup` of `font`, where it reads.
fn read_subtable(font: &[u8], lookup: usize, k: usize) -> (r: Option<SingleSubtable>)
    ensures
        r.deep_view() == subtable_at(font@, lookup, k),
{
    let coverage = match gsub_subtable_coverage(font, lookup, k) {
        Some(c) => c,
        None => {
            return None;
        },
    };
    assert(coverage.deep_view() =~= coverage@);
    match gsub_subtable_delta(font, lookup, k) {
        Some(delta) => Some(SingleSubtable::Delta { coverage, delta }),
        None => match gsub_subtable_substitutes(font, lookup, k) {
            Some(substitutes) => {
                assert(substitutes.deep_view() =~= substitutes@);
                Some(SingleSubtable::Pairs { coverage, substitutes })
            },
            None => None,
        },
    }
}

/// The subtables of lookup `lookup` of `font` that read, of its first `n`.
fn read_tables(font: &[u8], lookup: usize, n: usize) -> (r: Vec<SingleSubtable>)
    ensures
        r.deep_view() == tables_of(font@, lookup, n as nat),
{
    let mut out: Vec<SingleSubtable> = Vec::new();
    let mut k: usize = 0;
    while k < n
        invariant
            k <= n,
            out.deep_view() == tables_of(font@, lookup, k as nat),
        decreases n - k,
    {
        let ghost before = out.deep_view();
        match read_subtable(font, lookup, k) {
            Some(t) => {
                out.push(t);
                assert(out.deep_view() =~= before.push(t.deep_view()));
            },
            None => {},
        }
        k = k + 1;
    }
    out
}

/// The GSUB lookups of `font`: the subtables of each single substitution,
/// `None` for every other lookup.
fn read_lookups(font: &[u8]) -> (r: Vec<Option<Vec<SingleSubtable>>>)
    ensures
        r.deep_view() == font_lookups(font@),
{
    let shapes = gsub_lookup_shapes(font);
    let mut out: Vec<Option<Vec<SingleSubtable>>> = Vec::new();
    let mut i: usize = 0;
    while i < shapes.len()
        invariant
            shapes@ == lookup_shapes(font@),
            i <= shapes@.len(),
            out.deep_view() =~= font_lookups(font@).take(i as int),
        decreases shapes@.len() - i,
    {
        let ghost before = out.deep_view();
        match shapes[i] {
            Some(n) => {
                let tables = read_tables(font, i, n);
                out.push(Some(tables));
            },
            None => {
                out.push(None);
            },
        }
        assert(out.deep_view() =~= before.push(font_lookups(font@)[i as int]));
        assert(font_lookups(font@).take(i + 1) =~= before.push(font_lookups(font@)[i as int]));
        i = i + 1;
    }
    out
}

/// Every single substitution that the features named in `features` perform in
/// `font`, as old id -> new id; a name that is not a tag names no feature.
pub fn substitutions(font: &[u8], features: &[&str]) -> (r: HashMap<u32, u32>)
    ensures
        r@ == spec_feature_substitutions(
            feature_records(font@),
            font_lookups(font@),
            wanted_tags(features@),
        ),
{
    let mut wanted: Vec<u32> = Vec::new();
    let mut i: usize = 0;
    while i < features.len()
        invariant
            i <= features@.len(),
            wanted@ == wanted_tags(features@.take(i as int)),
        decreases features@.len() - i,
    {
        assert(features@.take(i + 1).drop_last() =~= features@.take(i as int));
        match feature_tag(features[i]) {
            Some(tag) => wanted.push(tag),
            None => {},
        }
        i = i + 1;
    }
    assert(features@.take(features@.len() as int) =~= features@);
    let records = gsub_feature_records(font);
    let lookups = read_lookups(font);
    feature_substitutions(records.as_slice(), lookups.as_slice(), wanted.as_slice())
}

} // verus!
