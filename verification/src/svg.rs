//! Reading attributes off an SVG tag.
use vstd::prelude::*;
use vstd::string::*;
use crate::text::{str_chars, occurs};

verus! {

/// The first place at or after `p` where `w` occurs in `s`.
pub open spec fn first_occurrence_from(s: Seq<char>, w: Seq<char>, p: int) -> Option<int>
    decreases s.len() + 1 - p,
{
    if p < 0 || p + w.len() > s.len() {
        None
    } else if occurs(s, p, w) {
        Some(p)
    } else {
        first_occurrence_from(s, w, p + 1)
    }
}

/// Whitespace that separates attributes in markup.
pub open spec fn is_markup_space(c: char) -> bool {
    c == ' ' || c == '\t' || c == '\n' || c == '\r'
}

/// Can an attribute begin at `p`: at the start, or after whitespace?
pub open spec fn attribute_boundary(s: Seq<char>, p: int) -> bool {
    p == 0 || (0 < p <= s.len() && is_markup_space(s[p - 1]))
}

/// The first place at or after `p` where `w` occurs in `s` at an attribute boundary.
pub open spec fn first_attribute_from(s: Seq<char>, w: Seq<char>, p: int) -> Option<int>
    decreases s.len() + 1 - p,
{
    if p < 0 || p + w.len() > s.len() {
        None
    } else if occurs(s, p, w) && attribute_boundary(s, p) {
        Some(p)
    } else {
        first_attribute_from(s, w, p + 1)
    }
}

/// `name="`: what introduces the attribute `name`.
pub open spec fn attr_opening(name: Seq<char>) -> Seq<char> {
    name + seq!['=', '"']
}

/// The value of the attribute `name` in `tag`: whatever lies between the first
/// `name="` that starts the tag or follows whitespace, and the next `"`; `None`
/// where there is no such `name="`, or no closing quote after it. So `id="a"`
/// is never read as the attribute `d`.
pub open spec fn spec_attr(tag: Seq<char>, name: Seq<char>) -> Option<Seq<char>> {
    match first_attribute_from(tag, attr_opening(name), 0) {
        None => None,
        Some(p) => {
            let at = p + name.len() + 2;
            match first_occurrence_from(tag, seq!['"'], at) {
                None => None,
                Some(end) => Some(tag.subrange(at, end)),
            }
        },
    }
}

/// The first place at or after `from` where `w` occurs in `s`.
#[verifier::spinoff_prover]
fn find_chars(s: &[char], w: &[char], from: usize) -> (r: Option<usize>)
    requires
        from <= s@.len(),
    ensures
        r is Some == first_occurrence_from(s@, w@, from as int) is Some,
        r matches Some(p) ==> first_occurrence_from(s@, w@, from as int) == Some(p as int) && from
            <= p && p + w@.len() <= s@.len(),
{
    if w.len() > s.len() - from {
        return None;
    }
    let last = s.len() - w.len();
    let mut p: usize = from;
    loop
        invariant
            last == s@.len() - w@.len(),
            from <= p <= last,
            first_occurrence_from(s@, w@, from as int) == first_occurrence_from(s@, w@, p as int),
        decreases last - p,
    {
        if chars_at(s, p, w) {
            return Some(p);
        }
        if p == last {
            return None;
        }
        p = p + 1;
    }
}

/// The first place at or after `from` where `w` occurs in `s` at an attribute boundary.
#[verifier::spinoff_prover]
fn find_attribute(s: &[char], w: &[char], from: usize) -> (r: Option<usize>)
    requires
        from <= s@.len(),
    ensures
        r is Some == first_attribute_from(s@, w@, from as int) is Some,
        r matches Some(p) ==> first_attribute_from(s@, w@, from as int) == Some(p as int) && from
            <= p && p + w@.len() <= s@.len(),
{
    if w.len() > s.len() - from {
        return None;
    }
    let last = s.len() - w.len();
    let mut p: usize = from;
    loop
        invariant
            last == s@.len() - w@.len(),
            from <= p <= last,
            first_attribute_from(s@, w@, from as int) == first_attribute_from(s@, w@, p as int),
        decreases last - p,
    {
        let boundary = p == 0 || s[p - 1] == ' ' || s[p - 1] == '\t' || s[p - 1] == '\n' || s[p
            - 1] == '\r';
        assert(boundary == attribute_boundary(s@, p as int));
        if boundary && chars_at(s, p, w) {
            return Some(p);
        }
        if p == last {
            return None;
        }
        p = p + 1;
    }
}

/// Does `w` occur in `s` at `at`?
fn chars_at(s: &[char], at: usize, w: &[char]) -> (r: bool)
    requires
        at + w@.len() <= s@.len(),
    ensures
        r == occurs(s@, at as int, w@),
{
    let n = s.len();
    let mut k: usize = 0;
    while k < w.len()
        invariant
            n == s@.len(),
            at + w@.len() <= s@.len(),
            k <= w@.len(),
            forall|j: int| 0 <= j < k ==> s@[at + j] == w@[j],
        decreases w@.len() - k,
    {
        if s[at + k] != w[k] {
            assert(s@.subrange(at as int, at + w@.len())[k as int] != w@[k as int]);
            return false;
        }
        k = k + 1;
    }
    assert(s@.subrange(at as int, at + w@.len()) =~= w@);
    true
}

/// The value of the attribute `name` in `tag`.
pub fn attr<'a>(tag: &'a str, name: &str) -> (r: Option<&'a str>)
    ensures
        r is Some == spec_attr(tag@, name@) is Some,
        r matches Some(v) ==> spec_attr(tag@, name@) == Some(v@),
{
    let chars = str_chars(tag);
    let n = chars.len();
    let mut opening = str_chars(name);
    opening.push('=');
    opening.push('"');
    assert(opening@ =~= attr_opening(name@));
    let p = match find_attribute(chars.as_slice(), opening.as_slice(), 0) {
        Some(p) => p,
        None => {
            return None;
        },
    };
    let at = p + opening.len();
    let mut quote: Vec<char> = Vec::new();
    quote.push('"');
    assert(quote@ =~= seq!['"']);
    let end = match find_chars(chars.as_slice(), quote.as_slice(), at) {
        Some(e) => e,
        None => {
            return None;
        },
    };
    Some(tag.substring_char(at, end))
}

/// Is `c` an ASCII digit?
pub open spec fn is_digit(c: u8) -> bool {
    48 <= c <= 57
}

/// Can a number start with `c`: a digit, a sign or a point?
pub open spec fn starts_number(c: u8) -> bool {
    is_digit(c) || c == 45 || c == 43 || c == 46
}

/// Does the number running up to `i` go on at `i`: a digit, a point, or a
/// sign straight after an exponent mark?
pub open spec fn continues_number(b: Seq<u8>, i: int) -> bool {
    is_digit(b[i]) || b[i] == 46 || ((b[i] == 45 || b[i] == 43) && (b[i - 1] == 101 || b[i - 1]
        == 69))
}

/// Where the number running through `i` ends.
pub open spec fn number_end(b: Seq<u8>, i: int) -> int
    decreases b.len() - i,
{
    if i >= b.len() || !continues_number(b, i) {
        i
    } else {
        number_end(b, i + 1)
    }
}

/// The spans of the numbers in `b` from `i` on, as (start, end) byte
/// positions: each starts at a byte that can start one and runs while it can go
/// on; every other byte separates.
pub open spec fn number_spans_from(b: Seq<u8>, i: int) -> Seq<(int, int)>
    decreases b.len() - i,
{
    if i < 0 || i >= b.len() {
        seq![]
    } else if starts_number(b[i]) {
        proof {
            lemma_number_end(b, i + 1);
        }
        seq![(i, number_end(b, i + 1))] + number_spans_from(b, number_end(b, i + 1))
    } else {
        number_spans_from(b, i + 1)
    }
}

/// A number span runs forward.
pub proof fn lemma_number_end(b: Seq<u8>, i: int)
    ensures
        number_end(b, i) >= i,
        i <= b.len() ==> number_end(b, i) <= b.len(),
    decreases b.len() - i,
{
    if i < b.len() && continues_number(b, i) {
        lemma_number_end(b, i + 1);
    }
}

/// Where a number that goes on at `i` stops: at the end of the bytes or at
/// the first byte from `i` that does not continue it.
proof fn lemma_number_end_stops(b: Seq<u8>, i: int)
    requires
        1 <= i <= b.len(),
    ensures
        i <= number_end(b, i) <= b.len(),
        forall|j: int| i <= j < number_end(b, i) ==> #[trigger] continues_number(b, j),
        number_end(b, i) < b.len() ==> !continues_number(b, number_end(b, i)),
    decreases b.len() - i,
{
    if i < b.len() && continues_number(b, i) {
        lemma_number_end_stops(b, i + 1);
    }
}

/// A byte a number may begin with, written out: '0'..='9', '-', '+' or '.'.
pub open spec fn number_start_byte(c: u8) -> bool {
    (48 <= c && c <= 57) || c == 45 || c == 43 || c == 46
}

/// Does a number go on at `j`, written out: a digit, a '.', or a '-' or '+'
/// straight after an 'e' or 'E'.
pub open spec fn number_goes_on(b: Seq<u8>, j: int) -> bool {
    (48 <= b[j] && b[j] <= 57) || b[j] == 46 || ((b[j] == 45 || b[j] == 43) && (b[j - 1] == 101
        || b[j - 1] == 69))
}

/// `lo..hi` is one whole number of `b`: it begins with a byte a number may
/// begin with, every later byte goes on with it, and the byte after it, if
/// any, does not.
pub open spec fn whole_number(b: Seq<u8>, lo: int, hi: int) -> bool {
    &&& 0 <= lo < hi <= b.len()
    &&& number_start_byte(b[lo])
    &&& forall|j: int| lo < j < hi ==> #[trigger] number_goes_on(b, j)
    &&& hi < b.len() ==> !number_goes_on(b, hi)
}

/// Every span found from `i` on is a whole number at or after `i`.
#[verifier::spinoff_prover]
proof fn lemma_spans_whole(b: Seq<u8>, i: int)
    requires
        0 <= i <= b.len(),
    ensures
        forall|k: int|
            0 <= k < number_spans_from(b, i).len() ==> i <= (#[trigger] number_spans_from(b, i)[k]).0
                && whole_number(b, number_spans_from(b, i)[k].0, number_spans_from(b, i)[k].1),
    decreases b.len() - i,
{
    let sp = number_spans_from(b, i);
    if i < b.len() {
        if starts_number(b[i]) {
            lemma_number_end_stops(b, i + 1);
            let e = number_end(b, i + 1);
            lemma_spans_whole(b, e);
            assert(sp == seq![(i, e)] + number_spans_from(b, e));
            assert forall|j: int| i < j < e implies #[trigger] number_goes_on(b, j) by {
                assert(continues_number(b, j));
            }
            assert(whole_number(b, i, e));
            assert forall|k: int| 0 <= k < sp.len() implies i <= (#[trigger] sp[k]).0
                && whole_number(b, sp[k].0, sp[k].1) by {
                if k > 0 {
                    assert(sp[k] == number_spans_from(b, e)[k - 1]);
                }
            }
        } else {
            lemma_spans_whole(b, i + 1);
            assert(sp == number_spans_from(b, i + 1));
            assert forall|k: int| 0 <= k < sp.len() implies i <= (#[trigger] sp[k]).0
                && whole_number(b, sp[k].0, sp[k].1) by {
                assert(sp[k] == number_spans_from(b, i + 1)[k]);
            }
        }
    } else {
        assert(sp.len() == 0);
    }
}

/// The spans found from `i` on come in order without overlapping.
#[verifier::spinoff_prover]
proof fn lemma_spans_ordered(b: Seq<u8>, i: int)
    requires
        0 <= i <= b.len(),
    ensures
        forall|k: int, l: int|
            0 <= k < l < number_spans_from(b, i).len() ==> (#[trigger] number_spans_from(b, i)[k]).1
                <= (#[trigger] number_spans_from(b, i)[l]).0,
    decreases b.len() - i,
{
    let sp = number_spans_from(b, i);
    if i < b.len() {
        if starts_number(b[i]) {
            lemma_number_end_stops(b, i + 1);
            let e = number_end(b, i + 1);
            let rest = number_spans_from(b, e);
            lemma_spans_ordered(b, e);
            lemma_spans_whole(b, e);
            assert(sp == seq![(i, e)] + rest);
            assert forall|k: int, l: int| 0 <= k < l < sp.len() implies (#[trigger] sp[k]).1
                <= (#[trigger] sp[l]).0 by {
                assert(sp[l] == rest[l - 1]);
                if k > 0 {
                    assert(sp[k] == rest[k - 1]);
                }
            }
        } else {
            lemma_spans_ordered(b, i + 1);
            assert(sp == number_spans_from(b, i + 1));
        }
    } else {
        assert(sp.len() == 0);
    }
}

/// Every byte from `i` on that a number may begin with lies in a span.
#[verifier::spinoff_prover]
proof fn lemma_spans_cover(b: Seq<u8>, i: int)
    requires
        0 <= i <= b.len(),
    ensures
        forall|p: int|
            i <= p < b.len() && #[trigger] number_start_byte(b[p]) ==> exists|k: int|
                0 <= k < number_spans_from(b, i).len() && (#[trigger] number_spans_from(b, i)[k]).0
                    <= p < number_spans_from(b, i)[k].1,
    decreases b.len() - i,
{
    let sp = number_spans_from(b, i);
    if i < b.len() {
        if starts_number(b[i]) {
            lemma_number_end_stops(b, i + 1);
            let e = number_end(b, i + 1);
            let rest = number_spans_from(b, e);
            lemma_spans_cover(b, e);
            assert(sp == seq![(i, e)] + rest);
            assert forall|p: int| i <= p < b.len() && #[trigger] number_start_byte(b[p]) implies exists|
                k: int,
            | 0 <= k < sp.len() && (#[trigger] sp[k]).0 <= p < sp[k].1 by {
                if p < e {
                    assert(sp[0].0 <= p < sp[0].1);
                } else {
                    let k = choose|k: int| 0 <= k < rest.len() && (#[trigger] rest[k]).0 <= p
                        < rest[k].1;
                    assert(sp[k + 1] == rest[k]);
                }
            }
        } else {
            lemma_spans_cover(b, i + 1);
            assert forall|p: int| i <= p < b.len() && #[trigger] number_start_byte(b[p]) implies exists|
                k: int,
            | 0 <= k < sp.len() && (#[trigger] sp[k]).0 <= p < sp[k].1 by {
                assert(p != i);
            }
        }
    }
}

/// The spans of the numbers in `s`, with the byte classes written out: each
/// is a whole number (it begins with '0'..='9', '-', '+' or '.', goes on
/// through digits, points and signs straight after 'e' or 'E', and stops where
/// the next byte does not go on); they come in order without overlapping; and
/// every '0'..='9', '-', '+' or '.' of `s` lies in one of them. So ".5" is one
/// span, and "1e-3" is "1" then "-3".
pub proof fn law_number_spans(s: &str)
    ensures
        forall|k: int|
            0 <= k < number_spans_from(s.spec_bytes(), 0).len() ==> whole_number(
                s.spec_bytes(),
                (#[trigger] number_spans_from(s.spec_bytes(), 0)[k]).0,
                number_spans_from(s.spec_bytes(), 0)[k].1,
            ),
        forall|k: int, l: int|
            0 <= k < l < number_spans_from(s.spec_bytes(), 0).len() ==> (
            #[trigger] number_spans_from(s.spec_bytes(), 0)[k]).1 <= (
            #[trigger] number_spans_from(s.spec_bytes(), 0)[l]).0,
        forall|p: int|
            0 <= p < s.spec_bytes().len() && #[trigger] number_start_byte(s.spec_bytes()[p])
                ==> exists|k: int|
                0 <= k < number_spans_from(s.spec_bytes(), 0).len() && (
                #[trigger] number_spans_from(s.spec_bytes(), 0)[k]).0 <= p < number_spans_from(
                    s.spec_bytes(),
                    0,
                )[k].1,
{
    lemma_spans_whole(s.spec_bytes(), 0);
    lemma_spans_ordered(s.spec_bytes(), 0);
    lemma_spans_cover(s.spec_bytes(), 0);
}

/// Does the number running up to `i` go on at `i`?
fn continues_at(b: &[u8], i: usize) -> (r: bool)
    requires
        0 < i < b@.len(),
    ensures
        r == continues_number(b@, i as int),
{
    let d = b[i];
    let prev = b[i - 1];
    (48 <= d && d <= 57) || d == 46 || ((d == 45 || d == 43) && (prev == 101 || prev == 69))
}

/// The spans of the numbers in `s`, as byte positions: the runs that a number
/// parser is handed, in order.
pub fn number_spans(s: &str) -> (r: Vec<(usize, usize)>)
    ensures
        r@.len() == number_spans_from(s.spec_bytes(), 0).len(),
        forall|k: int|
            0 <= k < r@.len() ==> (#[trigger] r@[k]).0 == number_spans_from(s.spec_bytes(), 0)[k].0
                && r@[k].1 == number_spans_from(s.spec_bytes(), 0)[k].1,
{
    let b = s.as_bytes();
    let n = b.len();
    let ghost bs = b@;
    let mut out: Vec<(usize, usize)> = Vec::new();
    let ghost mut done: Seq<(int, int)> = seq![];
    let mut i: usize = 0;
    while i < n
        invariant
            bs == b@,
            n == bs.len(),
            i <= n,
            number_spans_from(bs, 0) == done + number_spans_from(bs, i as int),
            out@.len() == done.len(),
            forall|k: int|
                0 <= k < out@.len() ==> (#[trigger] out@[k]).0 == done[k].0 && out@[k].1 == done[k].1,
        decreases n - i,
    {
        let c = b[i];
        if (48 <= c && c <= 57) || c == 45 || c == 43 || c == 46 {
            let start = i;
            i = i + 1;
            while i < n && continues_at(b, i)
                invariant
                    bs == b@,
                    n == bs.len(),
                    start < i <= n,
                    number_end(bs, start as int + 1) == number_end(bs, i as int),
                decreases n - i,
            {
                i = i + 1;
            }
            proof {
                lemma_number_end(bs, i as int);
                assert(number_spans_from(bs, start as int) == seq![(start as int, i as int)]
                    + number_spans_from(bs, i as int));
                assert(done + number_spans_from(bs, start as int) =~= done.push(
                    (start as int, i as int),
                ) + number_spans_from(bs, i as int));
                done = done.push((start as int, i as int));
            }
            out.push((start, i));
        } else {
            i = i + 1;
        }
    }
    proof {
        assert(done + seq![] =~= done);
    }
    out
}

} // verus!
