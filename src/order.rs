//! The order of keys: character sequences compared lexicographically by
//! code point, which is the byte-wise order of their UTF-8 encodings, and a
//! stable insertion sort on it.

use vstd::prelude::*;
use vstd::multiset::Multiset;

verus! {

broadcast use vstd::seq_lib::group_to_multiset_ensures;

/// `a` sorts strictly before `b`.
pub open spec fn chars_lt(a: Seq<char>, b: Seq<char>) -> bool
    decreases a.len(),
{
    if a.len() == 0 {
        b.len() > 0
    } else if b.len() == 0 {
        false
    } else if a[0] != b[0] {
        a[0] < b[0]
    } else {
        chars_lt(a.drop_first(), b.drop_first())
    }
}

pub proof fn lemma_lt_irreflexive(a: Seq<char>)
    ensures
        !chars_lt(a, a),
    decreases a.len(),
{
    if a.len() > 0 {
        lemma_lt_irreflexive(a.drop_first());
    }
}

pub proof fn lemma_lt_asymmetric(a: Seq<char>, b: Seq<char>)
    ensures
        chars_lt(a, b) ==> !chars_lt(b, a),
    decreases a.len(),
{
    if a.len() > 0 && b.len() > 0 && a[0] == b[0] {
        lemma_lt_asymmetric(a.drop_first(), b.drop_first());
    }
}

pub proof fn lemma_lt_transitive(a: Seq<char>, b: Seq<char>, c: Seq<char>)
    ensures
        chars_lt(a, b) && chars_lt(b, c) ==> chars_lt(a, c),
    decreases a.len(),
{
    if a.len() > 0 && b.len() > 0 && c.len() > 0 && a[0] == b[0] && b[0] == c[0] {
        lemma_lt_transitive(a.drop_first(), b.drop_first(), c.drop_first());
    }
}

pub proof fn lemma_lt_total(a: Seq<char>, b: Seq<char>)
    ensures
        a != b ==> chars_lt(a, b) || chars_lt(b, a),
    decreases a.len(),
{
    if a.len() > 0 && b.len() > 0 {
        if a[0] == b[0] {
            lemma_lt_total(a.drop_first(), b.drop_first());
            if a.drop_first() == b.drop_first() {
                assert(a =~= seq![a[0]] + a.drop_first());
                assert(b =~= seq![b[0]] + b.drop_first());
            }
        } else {
            assert(a[0] < b[0] || b[0] < a[0]);
        }
    }
    if a.len() == 0 && b.len() == 0 {
        assert(a =~= b);
    }
}

/// `a` sorts no later than `b`.
pub open spec fn chars_le(a: Seq<char>, b: Seq<char>) -> bool {
    !chars_lt(b, a)
}

pub proof fn lemma_le_transitive(a: Seq<char>, b: Seq<char>, c: Seq<char>)
    ensures
        chars_le(a, b) && chars_le(b, c) ==> chars_le(a, c),
{
    lemma_lt_total(a, b);
    lemma_lt_total(b, c);
    lemma_lt_asymmetric(a, c);
    lemma_lt_transitive(a, b, c);
    lemma_lt_transitive(c, a, b);
    lemma_lt_transitive(b, c, a);
}

/// Compares two character sequences in key order.
pub fn chars_less(a: &[char], b: &[char]) -> (r: bool)
    ensures
        r == chars_lt(a@, b@),
{
    let mut i: usize = 0;
    proof {
        assert(a@.skip(0) == a@);
        assert(b@.skip(0) == b@);
    }
    while i < a.len() && i < b.len()
        invariant
            i <= a@.len(),
            i <= b@.len(),
            chars_lt(a@, b@) == chars_lt(a@.skip(i as int), b@.skip(i as int)),
        decreases a@.len() - i,
    {
        if a[i] != b[i] {
            return a[i] < b[i];
        }
        proof {
            assert(a@.skip(i as int).drop_first() == a@.skip(i + 1));
            assert(b@.skip(i as int).drop_first() == b@.skip(i + 1));
        }
        i = i + 1;
    }
    i == a.len() && i < b.len()
}

/// A sort key: a primary and a secondary character sequence.
pub type SortKey = (Seq<char>, Seq<char>);

/// `a` sorts strictly before `b`: by the primary part, then the secondary.
pub open spec fn key_lt(a: SortKey, b: SortKey) -> bool {
    chars_lt(a.0, b.0) || (a.0 == b.0 && chars_lt(a.1, b.1))
}

/// `a` sorts no later than `b`.
pub open spec fn key_le(a: SortKey, b: SortKey) -> bool {
    !key_lt(b, a)
}

pub proof fn lemma_key_lt_irreflexive(a: SortKey)
    ensures
        !key_lt(a, a),
{
    lemma_lt_irreflexive(a.0);
    lemma_lt_irreflexive(a.1);
}

pub proof fn lemma_key_lt_asymmetric(a: SortKey, b: SortKey)
    ensures
        key_lt(a, b) ==> !key_lt(b, a),
{
    lemma_lt_asymmetric(a.0, b.0);
    lemma_lt_asymmetric(a.1, b.1);
    lemma_lt_irreflexive(a.0);
}

pub proof fn lemma_key_le_transitive(a: SortKey, b: SortKey, c: SortKey)
    ensures
        key_le(a, b) && key_le(b, c) ==> key_le(a, c),
{
    lemma_le_transitive(a.0, b.0, c.0);
    lemma_le_transitive(a.1, b.1, c.1);
    lemma_lt_total(a.0, b.0);
    lemma_lt_total(b.0, c.0);
    lemma_lt_total(a.0, c.0);
    lemma_lt_asymmetric(a.0, b.0);
    lemma_lt_asymmetric(b.0, c.0);
    lemma_lt_asymmetric(a.0, c.0);
    lemma_lt_transitive(c.0, a.0, b.0);
    lemma_lt_transitive(b.0, c.0, a.0);
    lemma_lt_transitive(a.0, b.0, c.0);
    lemma_lt_irreflexive(a.0);
    lemma_lt_irreflexive(b.0);
}

/// Compares two sort keys.
pub fn key_less(a: &(Vec<char>, Vec<char>), b: &(Vec<char>, Vec<char>)) -> (r: bool)
    ensures
        r == key_lt((a.0@, a.1@), (b.0@, b.1@)),
{
    if chars_less(a.0.as_slice(), b.0.as_slice()) {
        true
    } else if chars_less(b.0.as_slice(), a.0.as_slice()) {
        proof {
            lemma_lt_asymmetric(b.0@, a.0@);
        }
        false
    } else {
        proof {
            lemma_lt_total(a.0@, b.0@);
        }
        chars_less(a.1.as_slice(), b.1.as_slice())
    }
}

/// Where `x` goes in `t`: before the first key that is not smaller.
pub open spec fn insert_pos(t: Seq<SortKey>, x: SortKey) -> int
    decreases t.len(),
{
    if t.len() == 0 {
        0
    } else if key_lt(t[0], x) {
        1 + insert_pos(t.drop_first(), x)
    } else {
        0
    }
}

/// The keys of `s` in sorted order, equal keys in their order in `s`.
pub open spec fn sort_keys(s: Seq<SortKey>) -> Seq<SortKey>
    decreases s.len(),
{
    if s.len() == 0 {
        s
    } else {
        let t = sort_keys(s.drop_first());
        t.insert(insert_pos(t, s[0]), s[0])
    }
}

pub proof fn lemma_insert_pos_bounds(t: Seq<SortKey>, x: SortKey)
    ensures
        0 <= insert_pos(t, x) <= t.len(),
    decreases t.len(),
{
    if t.len() > 0 {
        lemma_insert_pos_bounds(t.drop_first(), x);
    }
}

/// The first position whose key is not smaller than `x` is `insert_pos`.
pub proof fn lemma_insert_pos_is(t: Seq<SortKey>, x: SortKey, j: int)
    requires
        0 <= j <= t.len(),
        forall|k: int| 0 <= k < j ==> key_lt(#[trigger] t[k], x),
        j < t.len() ==> !key_lt(t[j], x),
    ensures
        insert_pos(t, x) == j,
    decreases j,
{
    if j > 0 {
        assert forall|k: int| 0 <= k < j - 1 implies key_lt(#[trigger] t.drop_first()[k], x) by {
            assert(t.drop_first()[k] == t[k + 1]);
        }
        lemma_insert_pos_is(t.drop_first(), x, j - 1);
    }
}

/// The keys before `insert_pos` are smaller than `x`, the one at it is not.
pub proof fn lemma_insert_pos_props(t: Seq<SortKey>, x: SortKey)
    ensures
        forall|k: int| 0 <= k < insert_pos(t, x) ==> key_lt(#[trigger] t[k], x),
        insert_pos(t, x) < t.len() ==> !key_lt(t[insert_pos(t, x)], x),
    decreases t.len(),
{
    lemma_insert_pos_bounds(t, x);
    if t.len() > 0 && key_lt(t[0], x) {
        let r = t.drop_first();
        lemma_insert_pos_props(r, x);
        lemma_insert_pos_bounds(r, x);
        assert forall|k: int| 0 <= k < insert_pos(t, x) implies key_lt(#[trigger] t[k], x) by {
            if k > 0 {
                assert(t[k] == r[k - 1]);
            }
        }
        if insert_pos(t, x) < t.len() {
            assert(t[insert_pos(t, x)] == r[insert_pos(r, x)]);
        }
    }
}

/// Sorted keys never decrease.
pub proof fn lemma_sort_keys_ordered(s: Seq<SortKey>)
    ensures
        forall|i: int, j: int| 0 <= i < j < sort_keys(s).len() ==> key_le(#[trigger] sort_keys(s)[i], #[trigger] sort_keys(s)[j]),
    decreases s.len(),
{
    if s.len() > 0 {
        let t = sort_keys(s.drop_first());
        let x = s[0];
        lemma_sort_keys_ordered(s.drop_first());
        lemma_insert_pos_props(t, x);
        lemma_insert_pos_bounds(t, x);
        let p = insert_pos(t, x);
        let r = t.insert(p, x);
        assert(sort_keys(s) == r);
        assert forall|a: int, b: int| 0 <= a < b < r.len() implies key_le(#[trigger] r[a], #[trigger] r[b]) by {
            if a < p && b == p {
                lemma_key_lt_asymmetric(t[a], x);
            } else if a == p && b > p {
                lemma_key_le_transitive(x, t[p], t[b - 1]);
                if b - 1 > p {
                    assert(key_le(t[p], t[b - 1]));
                } else {
                    lemma_key_lt_irreflexive(t[p]);
                }
            } else if a < p && b > p {
                assert(key_le(t[a], t[b - 1]));
            } else if b < p {
                assert(key_le(t[a], t[b]));
            } else {
                assert(key_le(t[a - 1], t[b - 1]));
            }
        }
    }
}

/// The keys of a sequence of keyed values.
pub open spec fn keys_of<T: Keyed>(s: Seq<T>) -> Seq<SortKey> {
    s.map_values(|x: T| x.sort_key())
}

/// Keys already in order stay as they are.
pub proof fn lemma_sort_keys_sorted(s: Seq<SortKey>)
    requires
        forall|i: int, j: int| 0 <= i < j < s.len() ==> key_le(#[trigger] s[i], #[trigger] s[j]),
    ensures
        sort_keys(s) == s,
    decreases s.len(),
{
    if s.len() > 0 {
        let r = s.drop_first();
        assert forall|i: int, j: int| 0 <= i < j < r.len() implies key_le(#[trigger] r[i], #[trigger] r[j]) by {
            assert(r[i] == s[i + 1] && r[j] == s[j + 1]);
        }
        lemma_sort_keys_sorted(r);
        if r.len() > 0 {
            assert(key_le(s[0], s[1]));
        }
        lemma_insert_pos_is(r, s[0], 0);
        assert(r.insert(0, s[0]) =~= s);
    }
}

/// A value that is ordered by a character key.
pub trait Keyed {
    spec fn sort_key(&self) -> SortKey;

    fn key_chars(&self) -> (r: (Vec<char>, Vec<char>))
        ensures
            (r.0@, r.1@) == self.sort_key(),
    ;
}

/// The keys of `s` never decrease.
pub open spec fn sorted_by_key<T: Keyed>(s: Seq<T>) -> bool {
    forall|i: int, j: int| 0 <= i < j < s.len() ==> key_le(#[trigger] s[i].sort_key(), #[trigger] s[j].sort_key())
}

/// Sorts by key, keeping equal keys in their order: the result holds the
/// same items, its keys never decrease, and an input already in order
/// comes back unchanged.
pub fn sort_by_key<T: Keyed>(v: Vec<T>) -> (r: Vec<T>)
    ensures
        r@.to_multiset() == v@.to_multiset(),
        r@.len() == v@.len(),
        sorted_by_key(r@),
        sorted_by_key(v@) ==> r@ == v@,
        keys_of(r@) == sort_keys(keys_of(v@)),
{
    let ghost orig = v@;
    let mut rest = v;
    let mut res: Vec<T> = Vec::new();
    while rest.len() > 0
        invariant
            rest@ == orig.subrange(0, rest@.len() as int),
            rest@.len() <= orig.len(),
            res@.to_multiset().add(rest@.to_multiset()) == orig.to_multiset(),
            res@.len() + rest@.len() == orig.len(),
            sorted_by_key(res@),
            sorted_by_key(orig) ==> res@ == orig.subrange(rest@.len() as int, orig.len() as int),
            keys_of(res@) == sort_keys(keys_of(orig.subrange(rest@.len() as int, orig.len() as int))),
        decreases rest@.len(),
    {
        let ghost before = rest@;
        let x = rest.pop().unwrap();
        proof {
            assert(before == rest@.push(x));
            assert(rest@ == orig.subrange(0, rest@.len() as int));
        }
        let xk = x.key_chars();
        let mut j: usize = 0;
        while j < res.len()
            invariant
                j <= res@.len(),
                (xk.0@, xk.1@) == x.sort_key(),
                forall|k: int| 0 <= k < j ==> key_lt(#[trigger] res@[k].sort_key(), x.sort_key()),
            ensures
                j <= res@.len(),
                forall|k: int| 0 <= k < j ==> key_lt(#[trigger] res@[k].sort_key(), x.sort_key()),
                j < res@.len() ==> !key_lt(res@[j as int].sort_key(), x.sort_key()),
            decreases res@.len() - j,
        {
            let rk = res[j].key_chars();
            if !key_less(&rk, &xk) {
                break;
            }
            j = j + 1;
        }
        let ghost old_res = res@;
        res.insert(j, x);
        proof {
            assert(res@ == old_res.insert(j as int, x));
            assert forall|a: int, b: int| 0 <= a < b < res@.len() implies key_le(
                #[trigger] res@[a].sort_key(),
                #[trigger] res@[b].sort_key(),
            ) by {
                if a < j && b == j {
                    lemma_key_lt_asymmetric(old_res[a].sort_key(), x.sort_key());
                } else if a == j && b > j {
                    lemma_key_le_transitive(x.sort_key(), old_res[j as int].sort_key(), old_res[b - 1].sort_key());
                    if b - 1 > j {
                        assert(key_le(old_res[j as int].sort_key(), old_res[b - 1].sort_key()));
                    } else {
                        lemma_key_lt_irreflexive(old_res[j as int].sort_key());
                    }
                } else if a < j && b > j {
                    assert(key_le(old_res[a].sort_key(), old_res[b - 1].sort_key()));
                } else if b < j {
                    assert(key_le(old_res[a].sort_key(), old_res[b].sort_key()));
                } else {
                    assert(key_le(old_res[a - 1].sort_key(), old_res[b - 1].sort_key()));
                }
            }
            vstd::seq_lib::to_multiset_insert(old_res, j as int, x);
            let n = rest@.len() as int;
            let tail = orig.subrange(n, orig.len() as int);
            assert(keys_of(tail).drop_first() =~= keys_of(orig.subrange(n + 1, orig.len() as int)));
            assert(keys_of(tail)[0] == x.sort_key());
            lemma_insert_pos_is(keys_of(old_res), x.sort_key(), j as int);
            assert(keys_of(res@) =~= keys_of(old_res).insert(j as int, x.sort_key()));
            assert(before.to_multiset() == rest@.to_multiset().insert(x));
            if sorted_by_key(orig) {
                let n = rest@.len() as int;
                assert(old_res == orig.subrange(n + 1, orig.len() as int));
                if old_res.len() > 0 {
                    assert(orig[n] == x);
                    assert(old_res[0] == orig[n + 1]);
                    assert(key_le(x.sort_key(), old_res[0].sort_key()));
                    assert(j == 0);
                }
                assert(res@ =~= orig.subrange(n, orig.len() as int));
            }
        }
    }
    proof {
        assert(rest@.to_multiset() =~= Multiset::empty());
        assert(res@.to_multiset().add(Multiset::empty()) =~= res@.to_multiset());
        assert(orig.subrange(0, orig.len() as int) == orig);
    }
    res
}

} // verus!
