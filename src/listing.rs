//! Bucket listings (versions 1 and 2): the page after a cursor, truncation,
//! rolling keys up to common prefixes at a delimiter, and continuation
//! tokens.

use vstd::prelude::*;
use vstd::string::*;
use vstd::utf8::*;
use crate::digest::{base64_decode, base64_encode, base64_of, utf8_string};
use crate::order::{
    chars_less, chars_lt, key_le, key_lt, lemma_lt_asymmetric, lemma_lt_irreflexive, lemma_lt_total,
    lemma_lt_transitive, sort_by_key,
    sorted_by_key, Keyed, SortKey,
};
use crate::storage::{strictly_sorted, ObjectMeta};
use crate::text::{append_chars, chars_of, copy_range, find, occurs_at, starts_with, string_of};
use crate::xml::{CommonPrefix, ListBucketResult, ListBucketResultV1, ObjectEntry};

verus! {

broadcast use vstd::seq_lib::group_to_multiset_ensures;

/// A decimal digit.
pub open spec fn is_digit(c: char) -> bool {
    '0' <= c <= '9'
}

/// The value of a string of decimal digits.
pub open spec fn decimal_value(s: Seq<char>) -> int
    decreases s.len(),
{
    if s.len() == 0 {
        0
    } else {
        decimal_value(s.drop_last()) * 10 + ((s.last() as int) - 48)
    }
}

/// The digits of a number, without a leading `+`.
pub open spec fn digits_part(s: Seq<char>) -> Seq<char> {
    if s.len() > 0 && s[0] == '+' {
        s.skip(1)
    } else {
        s
    }
}

/// A non-negative decimal number, as `usize::from_str` reads them.
pub open spec fn is_decimal(s: Seq<char>) -> bool {
    digits_part(s).len() > 0 && forall|i: int| 0 <= i < digits_part(s).len() ==> is_digit(#[trigger] digits_part(s)[i])
}

/// The page size of a listing: the `max-keys` parameter when it is a
/// number, at most 1000, and 1000 otherwise.
pub open spec fn max_keys_of(v: Option<Seq<char>>) -> int {
    match v {
        Some(s) => if is_decimal(s) && decimal_value(digits_part(s)) < 1000 {
            decimal_value(digits_part(s))
        } else {
            1000
        },
        None => 1000,
    }
}

pub fn parse_max_keys(v: Option<&str>) -> (r: usize)
    ensures
        r == max_keys_of(
            match v {
                Some(s) => Some(s@),
                None => None,
            },
        ),
{
    let s = match v {
        Some(s) => s,
        None => {
            return 1000;
        },
    };
    let c = chars_of(s);
    let start: usize = if c.len() > 0 && c[0] == '+' {
        1
    } else {
        0
    };
    proof {
        assert(digits_part(s@) == c@.subrange(start as int, c@.len() as int));
    }
    if start >= c.len() {
        return 1000;
    }
    let mut acc: u64 = 0;
    let mut i: usize = start;
    proof {
        assert(c@.subrange(start as int, start as int) =~= Seq::<char>::empty());
    }
    while i < c.len()
        invariant
            start <= i <= c@.len(),
            c@ == s@,
            v == Some(s),
            digits_part(s@) == c@.subrange(start as int, c@.len() as int),
            forall|j: int| start <= j < i ==> is_digit(#[trigger] c@[j]),
            acc == (if decimal_value(c@.subrange(start as int, i as int)) > 1001 {
                1001
            } else {
                decimal_value(c@.subrange(start as int, i as int))
            }),
            decimal_value(c@.subrange(start as int, i as int)) >= 0,
        decreases c@.len() - i,
    {
        let ch = c[i];
        if !('0' <= ch && ch <= '9') {
            proof {
                assert(digits_part(s@)[i - start] == ch);
                assert(!is_digit(digits_part(s@)[i - start]));
            }
            return 1000;
        }
        proof {
            assert(c@.subrange(start as int, i + 1).drop_last() == c@.subrange(start as int, i as int));
        }
        let d = (ch as u32 - 48) as u64;
        acc = acc * 10 + d;
        if acc > 1001 {
            acc = 1001;
        }
        i = i + 1;
    }
    proof {
        assert forall|j: int| 0 <= j < digits_part(s@).len() implies is_digit(#[trigger] digits_part(s@)[j]) by {
            assert(digits_part(s@)[j] == c@[start + j]);
        }
    }
    if acc >= 1000 {
        1000
    } else {
        acc as usize
    }
}

/// The objects after a cursor: those whose key sorts strictly after it, or
/// all of them without a cursor.
pub open spec fn after_cursor(objs: Seq<ObjectMeta>, start: Option<Seq<char>>) -> Seq<ObjectMeta>
    decreases objs.len(),
{
    if objs.len() == 0 {
        objs
    } else {
        let p = after_cursor(objs.drop_last(), start);
        if start is None || chars_lt(start->0, objs.last().key@) {
            p.push(objs.last())
        } else {
            p
        }
    }
}

/// The page of at most `max` objects after the cursor.
pub open spec fn page_of(objs: Seq<ObjectMeta>, start: Option<Seq<char>>, max: int) -> Seq<ObjectMeta> {
    let f = after_cursor(objs, start);
    if f.len() > max {
        f.subrange(0, max)
    } else {
        f
    }
}

/// A listing is truncated when more than `max` objects follow the cursor.
pub open spec fn truncated(objs: Seq<ObjectMeta>, start: Option<Seq<char>>, max: int) -> bool {
    after_cursor(objs, start).len() > max
}

fn opt_chars_of(o: Option<&str>) -> (r: Option<Vec<char>>)
    ensures
        match o {
            Some(s) => r is Some && r->0@ == s@,
            None => r is None,
        },
{
    match o {
        Some(s) => Some(chars_of(s)),
        None => None,
    }
}

/// The page after `start` and whether the listing is truncated.
pub fn paginate(objs: &Vec<ObjectMeta>, start: Option<&str>, max_keys: usize) -> (r: (Vec<ObjectMeta>, bool))
    ensures
        ({
            let st = match start {
                Some(s) => Some(s@),
                None => None,
            };
            &&& r.0@ == page_of(objs@, st, max_keys as int)
            &&& r.1 == truncated(objs@, st, max_keys as int)
        }),
{
    let ghost st = match start {
        Some(s) => Some(s@),
        None => None::<Seq<char>>,
    };
    let sc = opt_chars_of(start);
    let mut page: Vec<ObjectMeta> = Vec::new();
    let mut count: usize = 0;
    let mut i: usize = 0;
    while i < objs.len()
        invariant
            i <= objs@.len(),
            count <= i,
            match start {
                Some(s) => sc is Some && sc->0@ == s@,
                None => sc is None,
            },
            st == match start {
                Some(s) => Some(s@),
                None => None::<Seq<char>>,
            },
            count == after_cursor(objs@.subrange(0, i as int), st).len(),
            page@ == page_of(objs@.subrange(0, i as int), st, max_keys as int),
        decreases objs@.len() - i,
    {
        let o = &objs[i];
        proof {
            assert(objs@.subrange(0, i + 1).drop_last() == objs@.subrange(0, i as int));
            assert(objs@.subrange(0, i + 1).last() == objs@[i as int]);
        }
        let keep = match &sc {
            Some(s) => {
                let k = chars_of(o.key.as_str());
                chars_less(s.as_slice(), k.as_slice())
            },
            None => true,
        };
        if keep {
            if count < max_keys {
                page.push(o.duplicate());
            }
            count = count + 1;
            proof {
                let f = after_cursor(objs@.subrange(0, i as int), st);
                assert(after_cursor(objs@.subrange(0, i + 1), st) == f.push(objs@[i as int]));
                if f.len() < max_keys {
                    assert(page@ =~= page_of(objs@.subrange(0, i + 1), st, max_keys as int));
                } else {
                    assert(f.push(objs@[i as int]).subrange(0, max_keys as int) =~= f.subrange(
                        0,
                        max_keys as int,
                    ));
                }
            }
        }
        i = i + 1;
    }
    proof {
        assert(objs@.subrange(0, objs@.len() as int) == objs@);
    }
    (page, count > max_keys)
}

/// `i` is where `pat` first occurs in `s`.
pub open spec fn is_first_occurrence(s: Seq<char>, pat: Seq<char>, i: int) -> bool {
    occurs_at(s, pat, i) && forall|j: int| 0 <= j < i ==> !occurs_at(s, pat, j)
}

/// The position where `pat` first occurs in `s`, if it does.
pub open spec fn first_occurrence(s: Seq<char>, pat: Seq<char>) -> Option<int> {
    if exists|i: int| is_first_occurrence(s, pat, i) {
        Some(choose|i: int| is_first_occurrence(s, pat, i))
    } else {
        None
    }
}

proof fn lemma_first_occurrence_unique(s: Seq<char>, pat: Seq<char>, i: int)
    requires
        is_first_occurrence(s, pat, i),
    ensures
        first_occurrence(s, pat) == Some(i),
{
    let c = choose|k: int| is_first_occurrence(s, pat, k);
    assert(is_first_occurrence(s, pat, c));
    if c < i {
        assert(!occurs_at(s, pat, c));
    } else if i < c {
        assert(!occurs_at(s, pat, i));
    }
}

/// The common prefix that a key rolls up to: the listing prefix followed by
/// the rest of the key up to and including the first delimiter, when the
/// rest holds one.
pub open spec fn rolled_prefix(key: Seq<char>, prefix: Seq<char>, delim: Seq<char>) -> Option<Seq<char>> {
    let suffix = key.skip(prefix.len() as int);
    match first_occurrence(suffix, delim) {
        Some(pos) => Some(prefix + suffix.subrange(0, pos + delim.len())),
        None => None,
    }
}

/// The objects of a page that are reported as objects rather than rolled up.
pub open spec fn kept_objects(page: Seq<ObjectMeta>, prefix: Seq<char>, delim: Option<Seq<char>>) -> Seq<ObjectMeta>
    decreases page.len(),
{
    if page.len() == 0 {
        page
    } else {
        let p = kept_objects(page.drop_last(), prefix, delim);
        if delim is None || rolled_prefix(page.last().key@, prefix, delim->0) is None {
            p.push(page.last())
        } else {
            p
        }
    }
}

/// The prefixes that the objects of a page roll up to, in page order.
pub open spec fn rolled_prefixes(page: Seq<ObjectMeta>, prefix: Seq<char>, delim: Seq<char>) -> Seq<Seq<char>>
    decreases page.len(),
{
    if page.len() == 0 {
        Seq::empty()
    } else {
        let p = rolled_prefixes(page.drop_last(), prefix, delim);
        match rolled_prefix(page.last().key@, prefix, delim) {
            Some(c) => p.push(c),
            None => p,
        }
    }
}

/// A listing entry shows an object's key, time, ETag and size, in the
/// `STANDARD` storage class.
pub open spec fn entry_matches(e: ObjectEntry, o: ObjectMeta) -> bool {
    &&& e.key@ == o.key@
    &&& e.last_modified@ == o.last_modified@
    &&& e.etag@ == o.etag@
    &&& e.size == o.size
    &&& e.storage_class@ == "STANDARD"@
}

/// The entries match the objects, one for one.
pub open spec fn entries_match(es: Seq<ObjectEntry>, os: Seq<ObjectMeta>) -> bool {
    es.len() == os.len() && forall|i: int| 0 <= i < es.len() ==> entry_matches(#[trigger] es[i], os[i])
}

/// One of the prefixes reads `x`.
pub open spec fn lists_prefix(cps: Seq<CommonPrefix>, x: Seq<char>) -> bool {
    exists|i: int| 0 <= i < cps.len() && #[trigger] cps[i].prefix@ == x
}

/// The prefixes sort strictly increasing and are exactly the given ones.
pub open spec fn prefixes_match(cps: Seq<CommonPrefix>, rolled: Seq<Seq<char>>) -> bool {
    &&& forall|i: int, j: int| 0 <= i < j < cps.len() ==> chars_lt(#[trigger] cps[i].prefix@, #[trigger] cps[j].prefix@)
    &&& forall|x: Seq<char>| #[trigger] rolled.contains(x) <==> lists_prefix(cps, x)
}

impl Keyed for CommonPrefix {
    open spec fn sort_key(&self) -> SortKey {
        (self.prefix@, Seq::empty())
    }

    fn key_chars(&self) -> (r: (Vec<char>, Vec<char>)) {
        (chars_of(self.prefix.as_str()), Vec::new())
    }
}

fn entry_of(o: &ObjectMeta) -> (r: ObjectEntry)
    ensures
        entry_matches(r, *o),
{
    ObjectEntry {
        key: o.key.clone(),
        last_modified: o.last_modified.clone(),
        etag: o.etag.clone(),
        size: o.size,
        storage_class: String::from_str("STANDARD"),
    }
}

fn roll_up(key: &str, prefix: &Vec<char>, delim: &Vec<char>) -> (r: Option<String>)
    requires
        starts_with(key@, prefix@),
    ensures
        match rolled_prefix(key@, prefix@, delim@) {
            Some(c) => r is Some && r->0@ == c,
            None => r is None,
        },
{
    let k = chars_of(key);
    let suffix = copy_range(k.as_slice(), prefix.len(), k.len());
    proof {
        assert(suffix@ == key@.skip(prefix@.len() as int));
    }
    match find(suffix.as_slice(), delim.as_slice()) {
        Some(pos) => {
            proof {
                lemma_first_occurrence_unique(suffix@, delim@, pos as int);
            }
            let mut out = copy_range(prefix.as_slice(), 0, prefix.len());
            let head = copy_range(suffix.as_slice(), 0, pos + delim.len());
            append_chars(&mut out, head.as_slice());
            proof {
                assert(prefix@.subrange(0, prefix@.len() as int) == prefix@);
            }
            Some(string_of(out.as_slice()))
        },
        None => {
            proof {
                if exists|i: int| is_first_occurrence(suffix@, delim@, i) {
                    let i = choose|i: int| is_first_occurrence(suffix@, delim@, i);
                    assert(!occurs_at(suffix@, delim@, i));
                }
            }
            None
        },
    }
}

/// Sorts and de-duplicates common prefixes.
fn sorted_unique(v: Vec<CommonPrefix>) -> (r: Vec<CommonPrefix>)
    ensures
        forall|i: int, j: int| 0 <= i < j < r@.len() ==> chars_lt(#[trigger] r@[i].prefix@, #[trigger] r@[j].prefix@),
        forall|x: Seq<char>| #[trigger] lists_prefix(v@, x) <==> lists_prefix(r@, x),
        r@.len() <= v@.len(),
{
    let ghost orig = v@;
    let s = sort_by_key(v);
    proof {
        assert(s@.subrange(0, 0) =~= Seq::<CommonPrefix>::empty());
        assert forall|x: Seq<char>| #[trigger] lists_prefix(orig, x) <==> lists_prefix(s@, x) by {
            if lists_prefix(orig, x) {
                let i = choose|i: int| 0 <= i < orig.len() && #[trigger] orig[i].prefix@ == x;
                assert(orig.to_multiset().count(orig[i]) > 0);
                assert(s@.contains(orig[i]));
            }
            if lists_prefix(s@, x) {
                let i = choose|i: int| 0 <= i < s@.len() && #[trigger] s@[i].prefix@ == x;
                assert(s@.to_multiset().count(s@[i]) > 0);
                assert(orig.contains(s@[i]));
            }
        }
    }
    let mut out: Vec<CommonPrefix> = Vec::new();
    let mut i: usize = 0;
    while i < s.len()
        invariant
            i <= s@.len(),
            out@.len() <= i,
            sorted_by_key(s@),
            forall|a: int, b: int| 0 <= a < b < out@.len() ==> chars_lt(#[trigger] out@[a].prefix@, #[trigger] out@[b].prefix@),
            i > 0 ==> out@.len() > 0 && out@.last().prefix@ == s@[i - 1].prefix@,
            forall|x: Seq<char>| #[trigger] lists_prefix(s@.subrange(0, i as int), x) <==> lists_prefix(out@, x),
        decreases s@.len() - i,
    {
        let dup = out.len() > 0 && out[out.len() - 1].prefix == s[i].prefix;
        let ghost old_out = out@;
        if !dup {
            let c = CommonPrefix { prefix: s[i].prefix.clone() };
            out.push(c);
            proof {
                if old_out.len() > 0 {
                    let last = old_out.last().prefix@;
                    let cur = s@[i as int].prefix@;
                    assert(key_le(s@[i - 1].sort_key(), s@[i as int].sort_key()));
                    lemma_lt_total(last, cur);
                    assert(chars_lt(last, cur));
                    assert forall|a: int, b: int| 0 <= a < b < out@.len() implies chars_lt(
                        #[trigger] out@[a].prefix@,
                        #[trigger] out@[b].prefix@,
                    ) by {
                        if b == out@.len() - 1 && a < old_out.len() - 1 {
                            lemma_lt_transitive(out@[a].prefix@, last, cur);
                        }
                    }
                }
            }
        }
        proof {
            let pre = s@.subrange(0, i as int);
            let post = s@.subrange(0, i + 1);
            assert forall|x: Seq<char>| #[trigger] lists_prefix(post, x) <==> lists_prefix(out@, x) by {
                if lists_prefix(post, x) {
                    let k = choose|k: int| 0 <= k < post.len() && #[trigger] post[k].prefix@ == x;
                    if k < i {
                        assert(pre[k] == post[k]);
                        assert(lists_prefix(pre, x));
                        let k3 = choose|k3: int| 0 <= k3 < old_out.len() && #[trigger] old_out[k3].prefix@ == x;
                        assert(out@[k3] == old_out[k3]);
                    } else {
                        assert(out@[out@.len() - 1].prefix@ == x);
                    }
                }
                if lists_prefix(out@, x) {
                    let k = choose|k: int| 0 <= k < out@.len() && #[trigger] out@[k].prefix@ == x;
                    if k < old_out.len() {
                        assert(old_out[k] == out@[k]);
                        assert(lists_prefix(old_out, x));
                        assert(lists_prefix(pre, x));
                        let k2 = choose|k2: int| 0 <= k2 < pre.len() && #[trigger] pre[k2].prefix@ == x;
                        assert(post[k2] == pre[k2]);
                    } else {
                        assert(post[i as int].prefix@ == x);
                    }
                }
            }
        }
        i = i + 1;
    }
    proof {
        assert(s@.subrange(0, s@.len() as int) == s@);
    }
    out
}

/// Splits a page into the objects it reports and the common prefixes that
/// the others roll up to. Without a delimiter every object is reported.
pub fn split_by_delimiter(page: &Vec<ObjectMeta>, prefix: &str, delimiter: Option<&str>) -> (r: (
    Vec<ObjectEntry>,
    Vec<CommonPrefix>,
))
    requires
        forall|i: int| 0 <= i < page@.len() ==> starts_with(#[trigger] page@[i].key@, prefix@),
    ensures
        ({
            let d = match delimiter {
                Some(d) => Some(d@),
                None => None,
            };
            &&& entries_match(r.0@, kept_objects(page@, prefix@, d))
            &&& d is None ==> r.1@.len() == 0
            &&& d matches Some(dd) ==> prefixes_match(r.1@, rolled_prefixes(page@, prefix@, dd))
            &&& r.0@.len() + r.1@.len() <= page@.len()
        }),
{
    let ghost d = match delimiter {
        Some(d) => Some(d@),
        None => None::<Seq<char>>,
    };
    let p = chars_of(prefix);
    let dc = opt_chars_of(delimiter);
    let mut contents: Vec<ObjectEntry> = Vec::new();
    let mut rolled: Vec<CommonPrefix> = Vec::new();
    let mut i: usize = 0;
    while i < page.len()
        invariant
            i <= page@.len(),
            p@ == prefix@,
            forall|i: int| 0 <= i < page@.len() ==> starts_with(#[trigger] page@[i].key@, prefix@),
            match delimiter {
                Some(s) => dc is Some && dc->0@ == s@,
                None => dc is None,
            },
            d == match delimiter {
                Some(s) => Some(s@),
                None => None::<Seq<char>>,
            },
            entries_match(contents@, kept_objects(page@.subrange(0, i as int), prefix@, d)),
            d is None ==> rolled@.len() == 0,
            d matches Some(dd) ==> rolled@.map_values(|c: CommonPrefix| c.prefix@) == rolled_prefixes(
                page@.subrange(0, i as int),
                prefix@,
                dd,
            ),
            contents@.len() + rolled@.len() == i,
        decreases page@.len() - i,
    {
        let o = &page[i];
        proof {
            assert(page@.subrange(0, i + 1).drop_last() == page@.subrange(0, i as int));
            assert(page@.subrange(0, i + 1).last() == page@[i as int]);
        }
        let ghost old_c = contents@;
        let ghost old_r = rolled@;
        match &dc {
            Some(dv) => {
                match roll_up(o.key.as_str(), &p, dv) {
                    Some(c) => {
                        rolled.push(CommonPrefix { prefix: c });
                        proof {
                            assert(rolled@.map_values(|c: CommonPrefix| c.prefix@) =~= old_r.map_values(
                                |c: CommonPrefix| c.prefix@,
                            ).push(c@));
                        }
                    },
                    None => {
                        contents.push(entry_of(o));
                    },
                }
            },
            None => {
                contents.push(entry_of(o));
            },
        }
        proof {
            let kept = kept_objects(page@.subrange(0, i + 1), prefix@, d);
            assert forall|k: int| 0 <= k < contents@.len() implies entry_matches(#[trigger] contents@[k], kept[k]) by {
                if k < old_c.len() {
                    assert(contents@[k] == old_c[k]);
                }
            }
        }
        i = i + 1;
    }
    proof {
        assert(page@.subrange(0, page@.len() as int) == page@);
    }
    let ghost rolled_view = rolled@;
    let n_rolled = rolled.len();
    let cps = match dc {
        Some(_) => sorted_unique(rolled),
        None => rolled,
    };
    proof {
        if d is Some {
            let rp = rolled_prefixes(page@, prefix@, d->0);
            assert forall|x: Seq<char>| #[trigger] rp.contains(x) <==> lists_prefix(rolled_view, x) by {
                if rp.contains(x) {
                    let k = choose|k: int| 0 <= k < rp.len() && rp[k] == x;
                    assert(rolled_view.map_values(|c: CommonPrefix| c.prefix@)[k] == x);
                    assert(rolled_view[k].prefix@ == x);
                }
                if lists_prefix(rolled_view, x) {
                    let k = choose|k: int| 0 <= k < rolled_view.len() && #[trigger] rolled_view[k].prefix@ == x;
                    assert(rolled_view.map_values(|c: CommonPrefix| c.prefix@)[k] == x);
                    assert(rp[k] == x);
                }
            }
        }
    }
    (contents, cps)
}

/// The continuation token of a key: base64 of its UTF-8 bytes.
pub open spec fn token_of(key: Seq<char>) -> Seq<char> {
    base64_of(encode_utf8(key))
}

/// The continuation token that resumes a listing after `key`.
pub fn token_for(key: &str) -> (r: String)
    ensures
        r@ == token_of(key@),
{
    base64_encode(key.as_bytes())
}

/// The key that a continuation token stands for, or `None` when the token is
/// not the token of any key.
pub fn decode_token(t: &str) -> (r: Option<String>)
    ensures
        forall|k: Seq<char>| #[trigger] token_of(k) == t@ ==> r is Some && r->0@ == k,
        r is Some ==> token_of(r->0@) == t@,
{
    match base64_decode(t) {
        Some(bytes) => {
            let ghost b = bytes@;
            let r = utf8_string(bytes);
            proof {
                broadcast use vstd::utf8::encode_utf8_decode_utf8, vstd::utf8::decode_utf8_encode_utf8, vstd::utf8::encode_utf8_valid_utf8;
                assert forall|k: Seq<char>| #[trigger] token_of(k) == t@ implies r is Some && r->0@ == k by {
                    assert(base64_of(encode_utf8(k)) == t@);
                    assert(b == encode_utf8(k));
                    assert(valid_utf8(encode_utf8(k)));
                    assert(decode_utf8(encode_utf8(k)) == k);
                }
                if r is Some {
                    assert(encode_utf8(decode_utf8(b)) == b);
                }
            }
            r
        },
        None => {
            proof {
                assert forall|k: Seq<char>| #[trigger] token_of(k) == t@ implies false by {
                    assert(base64_of(encode_utf8(k)) == t@);
                }
            }
            None
        },
    }
}

/// The query parameters of a listing request.
pub struct ListRequest {
    pub prefix: Option<String>,
    pub delimiter: Option<String>,
    pub max_keys: Option<String>,
    pub marker: Option<String>,
    pub start_after: Option<String>,
    pub continuation_token: Option<String>,
}

/// An optional string, seen as its characters.
pub open spec fn opt_view(o: Option<String>) -> Option<Seq<char>> {
    match o {
        Some(s) => Some(s@),
        None => None,
    }
}

/// The listing prefix of a request, empty when absent.
pub open spec fn prefix_of(req: ListRequest) -> Seq<char> {
    match req.prefix {
        Some(p) => p@,
        None => Seq::empty(),
    }
}

/// The cursor of a version 2 listing: the key of the continuation token when
/// it is the token of some key, else `start-after`.
pub open spec fn v2_cursor_ok(req: ListRequest, start: Option<Seq<char>>) -> bool {
    match req.continuation_token {
        Some(t) => if exists|k: Seq<char>| #[trigger] token_of(k) == t@ {
            forall|k: Seq<char>| #[trigger] token_of(k) == t@ ==> start == Some(k)
        } else {
            start == opt_view(req.start_after)
        },
        None => start == opt_view(req.start_after),
    }
}

fn clone_opt(o: &Option<String>) -> (r: Option<String>)
    ensures
        r == *o,
{
    match o {
        Some(s) => Some(s.clone()),
        None => None,
    }
}

fn as_opt_str(o: &Option<String>) -> (r: Option<&str>)
    ensures
        match o {
            Some(s) => r is Some && r->0@ == s@,
            None => r is None,
        },
{
    match o {
        Some(s) => Some(s.as_str()),
        None => None,
    }
}

proof fn lemma_after_cursor_prefix(objs: Seq<ObjectMeta>, st: Option<Seq<char>>, p: Seq<char>)
    requires
        forall|i: int| 0 <= i < objs.len() ==> starts_with(#[trigger] objs[i].key@, p),
    ensures
        forall|i: int| 0 <= i < after_cursor(objs, st).len() ==> starts_with(#[trigger] after_cursor(objs, st)[i].key@, p),
    decreases objs.len(),
{
    if objs.len() > 0 {
        assert(objs.drop_last().len() == objs.len() - 1);
        assert forall|i: int| 0 <= i < objs.drop_last().len() implies starts_with(#[trigger] objs.drop_last()[i].key@, p) by {
            assert(objs.drop_last()[i] == objs[i]);
        }
        lemma_after_cursor_prefix(objs.drop_last(), st, p);
        assert(objs.last() == objs[objs.len() - 1]);
        let prev = after_cursor(objs.drop_last(), st);
        let cur = after_cursor(objs, st);
        assert(cur == (if st is None || chars_lt(st->0, objs.last().key@) {
            prev.push(objs.last())
        } else {
            prev
        }));
        assert forall|i: int| 0 <= i < cur.len() implies starts_with(#[trigger] cur[i].key@, p) by {
            if i < prev.len() {
                assert(cur[i] == prev[i]);
                assert(starts_with(prev[i].key@, p));
            } else {
                assert(cur[i] == objs.last());
                assert(starts_with(objs[objs.len() - 1].key@, p));
            }
        }
    }
}

/// What the objects and common prefixes of a listing page are.
pub open spec fn page_contents_ok(
    contents: Seq<ObjectEntry>,
    prefixes: Seq<CommonPrefix>,
    page: Seq<ObjectMeta>,
    prefix: Seq<char>,
    delimiter: Option<Seq<char>>,
) -> bool {
    &&& entries_match(contents, kept_objects(page, prefix, delimiter))
    &&& delimiter is None ==> prefixes.len() == 0
    &&& delimiter matches Some(d) ==> prefixes_match(prefixes, rolled_prefixes(page, prefix, d))
}

/// A version 2 listing result for the objects `all` (those with the request's
/// prefix, sorted by key) and the cursor `start`.
pub open spec fn v2_result_ok(r: ListBucketResult, bucket: Seq<char>, req: ListRequest, all: Seq<ObjectMeta>, start: Option<Seq<char>>) -> bool {
    let max = max_keys_of(opt_view(req.max_keys));
    let page = page_of(all, start, max);
    &&& r.name@ == bucket
    &&& r.prefix@ == prefix_of(req)
    &&& r.max_keys == max
    &&& r.is_truncated == truncated(all, start, max)
    &&& page_contents_ok(r.contents@, r.common_prefixes@, page, prefix_of(req), opt_view(req.delimiter))
    &&& r.key_count == r.contents@.len() + r.common_prefixes@.len()
    &&& r.continuation_token == req.continuation_token
    &&& r.delimiter == req.delimiter
    &&& r.start_after == req.start_after
    &&& (if r.is_truncated && page.len() > 0 {
        r.next_continuation_token is Some && r.next_continuation_token->0@ == token_of(page.last().key@)
    } else {
        r.next_continuation_token is None
    })
}

/// A version 1 listing result for the objects `all` (those with the request's
/// prefix, sorted by key): the cursor is the marker.
pub open spec fn v1_result_ok(r: ListBucketResultV1, bucket: Seq<char>, req: ListRequest, all: Seq<ObjectMeta>) -> bool {
    let max = max_keys_of(opt_view(req.max_keys));
    let start = opt_view(req.marker);
    let page = page_of(all, start, max);
    &&& r.name@ == bucket
    &&& r.prefix@ == prefix_of(req)
    &&& r.marker@ == (match req.marker {
        Some(m) => m@,
        None => Seq::empty(),
    })
    &&& r.max_keys == max
    &&& r.is_truncated == truncated(all, start, max)
    &&& page_contents_ok(r.contents@, r.common_prefixes@, page, prefix_of(req), opt_view(req.delimiter))
    &&& r.delimiter == req.delimiter
    &&& (if r.is_truncated && page.len() > 0 {
        r.next_marker is Some && r.next_marker->0@ == page.last().key@
    } else {
        r.next_marker is None
    })
}

fn listing_page(all: &Vec<ObjectMeta>, req: &ListRequest, start: Option<&str>) -> (r: (
    Vec<ObjectEntry>,
    Vec<CommonPrefix>,
    bool,
    Option<String>,
    usize,
))
    requires
        forall|i: int| 0 <= i < all@.len() ==> starts_with(#[trigger] all@[i].key@, prefix_of(*req)),
    ensures
        ({
            let max = max_keys_of(opt_view(req.max_keys));
            let st = match start {
                Some(s) => Some(s@),
                None => None,
            };
            let page = page_of(all@, st, max);
            &&& r.4 == max
            &&& r.2 == truncated(all@, st, max)
            &&& page_contents_ok(r.0@, r.1@, page, prefix_of(*req), opt_view(req.delimiter))
            &&& r.0@.len() + r.1@.len() <= 1000
            &&& (if page.len() > 0 {
                r.3 is Some && r.3->0@ == page.last().key@
            } else {
                r.3 is None
            })
        }),
{
    let ghost st = match start {
        Some(s) => Some(s@),
        None => None::<Seq<char>>,
    };
    let mk = as_opt_str(&req.max_keys);
    let max = parse_max_keys(mk);
    proof {
        assert(opt_view(req.max_keys) == match mk {
            Some(s) => Some(s@),
            None => None::<Seq<char>>,
        });
    }
    let (page, is_truncated) = paginate(all, start, max);
    let prefix = match &req.prefix {
        Some(p) => p.clone(),
        None => String::new(),
    };
    proof {
        lemma_after_cursor_prefix(all@, st, prefix_of(*req));
        assert forall|i: int| 0 <= i < page@.len() implies starts_with(#[trigger] page@[i].key@, prefix@) by {
            let f = after_cursor(all@, st);
            assert(page@[i] == f[i]);
        }
    }
    let last = if page.len() > 0 {
        Some(page[page.len() - 1].key.clone())
    } else {
        None
    };
    let dl = as_opt_str(&req.delimiter);
    let (contents, prefixes) = split_by_delimiter(&page, prefix.as_str(), dl);
    proof {
        assert(opt_view(req.delimiter) == match dl {
            Some(s) => Some(s@),
            None => None::<Seq<char>>,
        });
    }
    (contents, prefixes, is_truncated, last, max)
}

/// Lists a bucket, version 2: `all` are the objects with the request's
/// prefix, sorted by key (as the storage engine lists them).
pub fn list_objects_v2(bucket: &str, req: &ListRequest, all: &Vec<ObjectMeta>) -> (r: ListBucketResult)
    requires
        forall|i: int| 0 <= i < all@.len() ==> starts_with(#[trigger] all@[i].key@, prefix_of(*req)),
    ensures
        exists|start: Option<Seq<char>>| v2_cursor_ok(*req, start) && v2_result_ok(r, bucket@, *req, all@, start),
{
    let decoded = match &req.continuation_token {
        Some(t) => decode_token(t.as_str()),
        None => None,
    };
    let start = match decoded {
        Some(k) => Some(k),
        None => clone_opt(&req.start_after),
    };
    let ghost st = opt_view(start);
    let sa = as_opt_str(&start);
    let (contents, common_prefixes, is_truncated, last, max) = listing_page(all, req, sa);
    let next = if is_truncated {
        match &last {
            Some(k) => Some(token_for(k.as_str())),
            None => None,
        }
    } else {
        None
    };
    let key_count = (contents.len() + common_prefixes.len()) as i32;
    let r = ListBucketResult {
        name: String::from_str(bucket),
        prefix: match &req.prefix {
            Some(p) => p.clone(),
            None => String::new(),
        },
        key_count,
        max_keys: max as i32,
        is_truncated,
        contents,
        common_prefixes,
        continuation_token: clone_opt(&req.continuation_token),
        next_continuation_token: next,
        delimiter: clone_opt(&req.delimiter),
        start_after: clone_opt(&req.start_after),
    };
    proof {
        assert(st == match sa {
            Some(s) => Some(s@),
            None => None::<Seq<char>>,
        });
        assert(v2_cursor_ok(*req, st));
        assert(v2_result_ok(r, bucket@, *req, all@, st));
    }
    r
}

/// Lists a bucket, version 1: `all` are the objects with the request's
/// prefix, sorted by key (as the storage engine lists them).
pub fn list_objects_v1(bucket: &str, req: &ListRequest, all: &Vec<ObjectMeta>) -> (r: ListBucketResultV1)
    requires
        forall|i: int| 0 <= i < all@.len() ==> starts_with(#[trigger] all@[i].key@, prefix_of(*req)),
    ensures
        v1_result_ok(r, bucket@, *req, all@),
{
    let mm = as_opt_str(&req.marker);
    let (contents, common_prefixes, is_truncated, last, max) = listing_page(all, req, mm);
    let next_marker = if is_truncated {
        last
    } else {
        None
    };
    let r = ListBucketResultV1 {
        name: String::from_str(bucket),
        prefix: match &req.prefix {
            Some(p) => p.clone(),
            None => String::new(),
        },
        marker: match &req.marker {
            Some(m) => m.clone(),
            None => String::new(),
        },
        next_marker,
        max_keys: max as i32,
        is_truncated,
        contents,
        common_prefixes,
        delimiter: clone_opt(&req.delimiter),
    };
    proof {
        assert(opt_view(req.marker) == match mm {
            Some(s) => Some(s@),
            None => None::<Seq<char>>,
        });
    }
    r
}

proof fn lemma_after_cursor_split(objs: Seq<ObjectMeta>, c: Seq<char>, j: int)
    requires
        0 <= j <= objs.len(),
        forall|i: int| 0 <= i < j ==> !chars_lt(c, #[trigger] objs[i].key@),
        forall|i: int| j <= i < objs.len() ==> chars_lt(c, #[trigger] objs[i].key@),
    ensures
        after_cursor(objs, Some(c)) == objs.skip(j),
    decreases objs.len(),
{
    if objs.len() > 0 {
        let d = objs.drop_last();
        if objs.len() == j {
            lemma_after_cursor_split(d, c, j - 1);
            assert(!chars_lt(c, objs[j - 1].key@));
            assert(d.skip(j - 1) =~= Seq::<ObjectMeta>::empty());
            assert(objs.skip(j) =~= Seq::<ObjectMeta>::empty());
        } else {
            assert forall|i: int| j <= i < d.len() implies chars_lt(c, #[trigger] d[i].key@) by {
                assert(d[i] == objs[i]);
            }
            lemma_after_cursor_split(d, c, j);
            assert(chars_lt(c, objs[objs.len() - 1].key@));
            assert(d.skip(j).push(objs.last()) =~= objs.skip(j));
        }
    } else {
        assert(objs.skip(j) =~= objs);
    }
}

proof fn lemma_after_no_cursor(objs: Seq<ObjectMeta>)
    ensures
        after_cursor(objs, None) == objs,
    decreases objs.len(),
{
    if objs.len() > 0 {
        lemma_after_no_cursor(objs.drop_last());
        assert(objs.drop_last().push(objs.last()) =~= objs);
    }
}

/// The cursor that resumes a listing at position `j`: none at the start,
/// else the key of the object before it.
pub open spec fn cursor_at(objs: Seq<ObjectMeta>, j: int) -> Option<Seq<char>> {
    if j == 0 {
        None
    } else {
        Some(objs[j - 1].key@)
    }
}

proof fn lemma_after_cursor_at(objs: Seq<ObjectMeta>, j: int)
    requires
        strictly_sorted(objs),
        0 <= j <= objs.len(),
    ensures
        after_cursor(objs, cursor_at(objs, j)) == objs.skip(j),
{
    if j == 0 {
        lemma_after_no_cursor(objs);
        assert(objs.skip(0) =~= objs);
    } else {
        let c = objs[j - 1].key@;
        assert forall|i: int| 0 <= i < j implies !chars_lt(c, #[trigger] objs[i].key@) by {
            if i < j - 1 {
                lemma_lt_asymmetric(objs[i].key@, c);
            } else {
                lemma_lt_irreflexive(c);
            }
        }
        lemma_after_cursor_split(objs, c, j);
    }
}

/// The keys of listed objects.
pub open spec fn meta_keys(os: Seq<ObjectMeta>) -> Seq<Seq<char>> {
    os.map_values(|o: ObjectMeta| o.key@)
}

/// The keys of listing entries.
pub open spec fn entry_keys(es: Seq<ObjectEntry>) -> Seq<Seq<char>> {
    es.map_values(|e: ObjectEntry| e.key@)
}

proof fn lemma_kept_no_delimiter(page: Seq<ObjectMeta>, p: Seq<char>)
    ensures
        kept_objects(page, p, None) == page,
    decreases page.len(),
{
    if page.len() > 0 {
        lemma_kept_no_delimiter(page.drop_last(), p);
        assert(page.drop_last().push(page.last()) =~= page);
    }
}

proof fn lemma_entries_keys(es: Seq<ObjectEntry>, os: Seq<ObjectMeta>)
    requires
        entries_match(es, os),
    ensures
        entry_keys(es) == meta_keys(os),
{
    assert forall|i: int| 0 <= i < es.len() implies #[trigger] entry_keys(es)[i] == meta_keys(os)[i] by {
        assert(entry_matches(es[i], os[i]));
    }
    assert(entry_keys(es) =~= meta_keys(os));
}

/// What one page contributes when the cursor stands at position `j` of a
/// strictly increasing listing and no delimiter is given: the next `max`
/// objects, or all that are left when the page is not truncated.
proof fn lemma_page_at(all: Seq<ObjectMeta>, j: int, max: int, p: Seq<char>, es: Seq<ObjectEntry>)
    requires
        strictly_sorted(all),
        0 <= j <= all.len(),
        max >= 1,
        entries_match(es, kept_objects(page_of(all, cursor_at(all, j), max), p, None)),
    ensures
        truncated(all, cursor_at(all, j), max) <==> all.len() - j > max,
        truncated(all, cursor_at(all, j), max) ==> entry_keys(es) == meta_keys(all.subrange(j, j + max))
            && page_of(all, cursor_at(all, j), max).last() == all[j + max - 1]
            && page_of(all, cursor_at(all, j), max).len() > 0,
        !truncated(all, cursor_at(all, j), max) ==> entry_keys(es) == meta_keys(all.skip(j)),
{
    lemma_after_cursor_at(all, j);
    let page = page_of(all, cursor_at(all, j), max);
    lemma_kept_no_delimiter(page, p);
    lemma_entries_keys(es, page);
    if all.len() - j > max {
        assert(page =~= all.subrange(j, j + max));
    }
}

/// The keys of the pages of a walk, in order.
pub open spec fn v1_walk_keys(rs: Seq<ListBucketResultV1>) -> Seq<Seq<char>>
    decreases rs.len(),
{
    if rs.len() == 0 {
        Seq::empty()
    } else {
        entry_keys(rs[0].contents@) + v1_walk_keys(rs.drop_first())
    }
}

/// A walk of a version 1 listing: request `i + 1` sends the `NextMarker` of
/// result `i`, every result but the last is truncated, and no request has a
/// delimiter; all have the same `max-keys`.
pub open spec fn v1_walk(bucket: Seq<char>, all: Seq<ObjectMeta>, reqs: Seq<ListRequest>, rs: Seq<ListBucketResultV1>) -> bool {
    &&& rs.len() == reqs.len() && rs.len() >= 1
    &&& reqs[0].marker is None
    &&& forall|i: int| 0 <= i < rs.len() ==> v1_result_ok(#[trigger] rs[i], bucket, reqs[i], all)
    &&& forall|i: int| 0 <= i < rs.len() ==> (#[trigger] reqs[i]).delimiter is None
        && opt_view(reqs[i].max_keys) == opt_view(reqs[0].max_keys)
    &&& forall|i: int| 0 <= i < rs.len() - 1 ==> (#[trigger] rs[i]).is_truncated
        && opt_view(reqs[i + 1].marker) == opt_view(rs[i].next_marker)
    &&& !rs.last().is_truncated
}

proof fn lemma_v1_walk_from(
    bucket: Seq<char>,
    all: Seq<ObjectMeta>,
    reqs: Seq<ListRequest>,
    rs: Seq<ListBucketResultV1>,
    i: int,
    j: int,
)
    requires
        strictly_sorted(all),
        v1_walk(bucket, all, reqs, rs),
        max_keys_of(opt_view(reqs[0].max_keys)) >= 1,
        0 <= i < rs.len(),
        0 <= j <= all.len(),
        opt_view(reqs[i].marker) == cursor_at(all, j),
    ensures
        v1_walk_keys(rs.skip(i)) == meta_keys(all.skip(j)),
    decreases rs.len() - i,
{
    let max = max_keys_of(opt_view(reqs[0].max_keys));
    let r = rs[i];
    assert(v1_result_ok(r, bucket, reqs[i], all));
    assert(reqs[i].delimiter is None);
    lemma_page_at(all, j, max, prefix_of(reqs[i]), r.contents@);
    let rest = rs.skip(i);
    assert(rest[0] == r);
    assert(rest.drop_first() =~= rs.skip(i + 1));
    assert(v1_walk_keys(rest) == entry_keys(r.contents@) + v1_walk_keys(rs.skip(i + 1)));
    assert(r.is_truncated == truncated(all, cursor_at(all, j), max));
    if i < rs.len() - 1 {
        assert(r.is_truncated);
        lemma_v1_walk_from(bucket, all, reqs, rs, i + 1, j + max);
        assert(meta_keys(all.subrange(j, j + max)) + meta_keys(all.skip(j + max)) =~= meta_keys(all.skip(j)));
    } else {
        assert(rs.last() == r);
        assert(rs.skip(i + 1) =~= Seq::<ListBucketResultV1>::empty());
        assert(entry_keys(r.contents@) + Seq::<Seq<char>>::empty() =~= entry_keys(r.contents@));
    }
}

/// Version 1 pagination is a partition: over a listing whose keys strictly
/// increase (as the storage engine lists them), following `NextMarker`
/// from the first page until a page is not truncated yields every key once,
/// in order.
pub proof fn lemma_v1_pagination(bucket: Seq<char>, all: Seq<ObjectMeta>, reqs: Seq<ListRequest>, rs: Seq<ListBucketResultV1>)
    requires
        strictly_sorted(all),
        v1_walk(bucket, all, reqs, rs),
        max_keys_of(opt_view(reqs[0].max_keys)) >= 1,
    ensures
        v1_walk_keys(rs) == meta_keys(all),
{
    lemma_v1_walk_from(bucket, all, reqs, rs, 0, 0);
    assert(rs.skip(0) =~= rs);
    assert(all.skip(0) =~= all);
}

/// The keys of the pages of a version 2 walk, in order.
pub open spec fn v2_walk_keys(rs: Seq<ListBucketResult>) -> Seq<Seq<char>>
    decreases rs.len(),
{
    if rs.len() == 0 {
        Seq::empty()
    } else {
        entry_keys(rs[0].contents@) + v2_walk_keys(rs.drop_first())
    }
}

/// A walk of a version 2 listing: request `i + 1` sends the
/// `NextContinuationToken` of result `i`, every result but the last is
/// truncated, no request has a delimiter or `start-after`, the first has no
/// token, and all have the same `max-keys`. Each result is one that
/// `list_objects_v2` may return.
pub open spec fn v2_walk(bucket: Seq<char>, all: Seq<ObjectMeta>, reqs: Seq<ListRequest>, rs: Seq<ListBucketResult>) -> bool {
    &&& rs.len() == reqs.len() && rs.len() >= 1
    &&& reqs[0].continuation_token is None
    &&& forall|i: int| 0 <= i < rs.len() ==> exists|st: Option<Seq<char>>| v2_cursor_ok(reqs[i], st) && v2_result_ok(#[trigger] rs[i], bucket, reqs[i], all, st)
    &&& forall|i: int| 0 <= i < rs.len() ==> (#[trigger] reqs[i]).delimiter is None && reqs[i].start_after is None
        && opt_view(reqs[i].max_keys) == opt_view(reqs[0].max_keys)
    &&& forall|i: int| 0 <= i < rs.len() - 1 ==> (#[trigger] rs[i]).is_truncated
        && opt_view(reqs[i + 1].continuation_token) == opt_view(rs[i].next_continuation_token)
    &&& !rs.last().is_truncated
}

proof fn lemma_v2_walk_from(
    bucket: Seq<char>,
    all: Seq<ObjectMeta>,
    reqs: Seq<ListRequest>,
    rs: Seq<ListBucketResult>,
    i: int,
    j: int,
)
    requires
        strictly_sorted(all),
        v2_walk(bucket, all, reqs, rs),
        max_keys_of(opt_view(reqs[0].max_keys)) >= 1,
        0 <= i < rs.len(),
        0 <= j <= all.len(),
        i == 0 ==> j == 0,
        i > 0 ==> j > 0 && opt_view(reqs[i].continuation_token) == Some(token_of(all[j - 1].key@)),
    ensures
        v2_walk_keys(rs.skip(i)) == meta_keys(all.skip(j)),
    decreases rs.len() - i,
{
    let max = max_keys_of(opt_view(reqs[0].max_keys));
    let r = rs[i];
    let st = choose|st: Option<Seq<char>>| v2_cursor_ok(reqs[i], st) && v2_result_ok(r, bucket, reqs[i], all, st);
    assert(v2_cursor_ok(reqs[i], st) && v2_result_ok(r, bucket, reqs[i], all, st));
    if i == 0 {
        assert(st == cursor_at(all, j));
    } else {
        let k = all[j - 1].key@;
        assert(token_of(k) == reqs[i].continuation_token->0@);
        assert(st == Some(k));
        assert(st == cursor_at(all, j));
    }
    lemma_page_at(all, j, max, prefix_of(reqs[i]), r.contents@);
    let rest = rs.skip(i);
    assert(rest[0] == r);
    assert(rest.drop_first() =~= rs.skip(i + 1));
    assert(v2_walk_keys(rest) == entry_keys(r.contents@) + v2_walk_keys(rs.skip(i + 1)));
    assert(r.is_truncated == truncated(all, cursor_at(all, j), max));
    if i < rs.len() - 1 {
        assert(r.is_truncated);
        lemma_v2_walk_from(bucket, all, reqs, rs, i + 1, j + max);
        assert(meta_keys(all.subrange(j, j + max)) + meta_keys(all.skip(j + max)) =~= meta_keys(all.skip(j)));
    } else {
        assert(rs.last() == r);
        assert(rs.skip(i + 1) =~= Seq::<ListBucketResult>::empty());
        assert(entry_keys(r.contents@) + Seq::<Seq<char>>::empty() =~= entry_keys(r.contents@));
    }
}

/// Version 2 pagination is a partition: over a listing whose keys strictly
/// increase, following `NextContinuationToken` from the first page until a
/// page is not truncated yields every key once, in order.
pub proof fn lemma_v2_pagination(bucket: Seq<char>, all: Seq<ObjectMeta>, reqs: Seq<ListRequest>, rs: Seq<ListBucketResult>)
    requires
        strictly_sorted(all),
        v2_walk(bucket, all, reqs, rs),
        max_keys_of(opt_view(reqs[0].max_keys)) >= 1,
    ensures
        v2_walk_keys(rs) == meta_keys(all),
{
    lemma_v2_walk_from(bucket, all, reqs, rs, 0, 0);
    assert(rs.skip(0) =~= rs);
    assert(all.skip(0) =~= all);
}

} // verus!
