//! Byte-string order and a stable insertion sort specified over it.
//!
//! Names of files and folders are ordered the way `Ord` orders `[u8]`,
//! `str`, `String` and `OsStr`: lexicographically by bytes.  Both directory
//! scanners sort their entries with a stable sort on such a byte key.
use vstd::prelude::*;

verus! {

broadcast use vstd::seq_lib::group_seq_properties;

/// Strict lexicographic order on byte strings.
pub open spec fn bytes_lt(a: Seq<u8>, b: Seq<u8>) -> bool
    decreases a.len(),
{
    if b.len() == 0 {
        false
    } else if a.len() == 0 {
        true
    } else if a[0] != b[0] {
        a[0] < b[0]
    } else {
        bytes_lt(a.drop_first(), b.drop_first())
    }
}

/// `bytes_lt` is irreflexive.
pub proof fn lemma_bytes_lt_irreflexive(a: Seq<u8>)
    ensures
        !bytes_lt(a, a),
    decreases a.len(),
{
    if a.len() > 0 {
        lemma_bytes_lt_irreflexive(a.drop_first());
    }
}

/// `bytes_lt` is transitive.
pub proof fn lemma_bytes_lt_transitive(a: Seq<u8>, b: Seq<u8>, c: Seq<u8>)
    requires
        bytes_lt(a, b),
        bytes_lt(b, c),
    ensures
        bytes_lt(a, c),
    decreases a.len(),
{
    if a.len() > 0 && b.len() > 0 && c.len() > 0 && a[0] == b[0] && b[0] == c[0] {
        lemma_bytes_lt_transitive(a.drop_first(), b.drop_first(), c.drop_first());
    }
}

/// Of two different byte strings, one is below the other; never both.
pub proof fn lemma_bytes_lt_total(a: Seq<u8>, b: Seq<u8>)
    ensures
        a != b ==> (bytes_lt(a, b) || bytes_lt(b, a)),
        !(bytes_lt(a, b) && bytes_lt(b, a)),
    decreases a.len(),
{
    if a.len() > 0 && b.len() > 0 && a[0] == b[0] {
        lemma_bytes_lt_total(a.drop_first(), b.drop_first());
        if a != b {
            assert(a.drop_first() != b.drop_first()) by {
                if a.drop_first() == b.drop_first() {
                    assert(a =~= seq![a[0]] + a.drop_first());
                    assert(b =~= seq![b[0]] + b.drop_first());
                }
            }
        }
    } else if a.len() == 0 && b.len() == 0 {
        assert(a =~= b);
    }
}

/// "Not below" is transitive: `c <= b <= a` gives `c <= a`.
pub proof fn lemma_bytes_not_lt_transitive(a: Seq<u8>, b: Seq<u8>, c: Seq<u8>)
    requires
        !bytes_lt(a, b),
        !bytes_lt(b, c),
    ensures
        !bytes_lt(a, c),
{
    lemma_bytes_lt_total(a, b);
    lemma_bytes_lt_total(b, c);
    lemma_bytes_lt_total(a, c);
    if bytes_lt(a, c) {
        if a == b {
        } else if b == c {
        } else {
            lemma_bytes_lt_transitive(c, b, a);
            lemma_bytes_lt_total(a, c);
        }
    }
}

/// Compares two byte strings in the order of `Ord` on `[u8]`.
pub fn bytes_less(a: &[u8], b: &[u8]) -> (r: bool)
    ensures
        r == bytes_lt(a@, b@),
{
    let mut i: usize = 0;
    assert(a@.skip(0) =~= a@);
    assert(b@.skip(0) =~= b@);
    while i < a.len() && i < b.len()
        invariant
            i <= a@.len(),
            i <= b@.len(),
            bytes_lt(a@, b@) == bytes_lt(a@.skip(i as int), b@.skip(i as int)),
        decreases a@.len() - i,
    {
        if a[i] != b[i] {
            return a[i] < b[i];
        }
        assert(a@.skip(i as int).drop_first() =~= a@.skip(i + 1));
        assert(b@.skip(i as int).drop_first() =~= b@.skip(i + 1));
        i = i + 1;
    }
    i < b.len()
}

/// `s` is ordered by `key`: no element is below one in front of it.
pub open spec fn sorted_by<A>(s: Seq<A>, key: spec_fn(A) -> Seq<u8>) -> bool {
    forall|i: int, j: int| 0 <= i < j < s.len() ==> !bytes_lt(key(s[j]), key(s[i]))
}

/// Places `x` into `s` behind every element whose key is not above the key
/// of `x`, scanning from the back.
pub open spec fn insert_by<A>(s: Seq<A>, x: A, key: spec_fn(A) -> Seq<u8>) -> Seq<A>
    decreases s.len(),
{
    if s.len() == 0 {
        seq![x]
    } else if bytes_lt(key(x), key(s.last())) {
        insert_by(s.drop_last(), x, key).push(s.last())
    } else {
        s.push(x)
    }
}

/// The stable sort of `s` by `key`: the elements of `s` inserted one after
/// another, in order, each behind all earlier elements with a key not above
/// its own.
pub open spec fn sort_by<A>(s: Seq<A>, key: spec_fn(A) -> Seq<u8>) -> Seq<A>
    decreases s.len(),
{
    if s.len() == 0 {
        s
    } else {
        insert_by(sort_by(s.drop_last(), key), s.last(), key)
    }
}

/// The position at which `insert_by` places `x`.
pub open spec fn insert_pos<A>(s: Seq<A>, x: A, key: spec_fn(A) -> Seq<u8>) -> int
    decreases s.len(),
{
    if s.len() == 0 {
        0
    } else if bytes_lt(key(x), key(s.last())) {
        insert_pos(s.drop_last(), x, key)
    } else {
        s.len() as int
    }
}

/// `j` is the place for `x` in `s` when scanning from the back: every element
/// from `j` on has a key above that of `x`, and the one before it does not.
pub open spec fn is_insert_point<A>(s: Seq<A>, x: A, key: spec_fn(A) -> Seq<u8>, j: int) -> bool {
    &&& 0 <= j <= s.len()
    &&& forall|m: int| j <= m < s.len() ==> bytes_lt(key(x), #[trigger] key(s[m]))
    &&& (j == 0 || !bytes_lt(key(x), key(s[j - 1])))
}

proof fn lemma_insert_pos_is_insert_point<A>(s: Seq<A>, x: A, key: spec_fn(A) -> Seq<u8>)
    ensures
        is_insert_point(s, x, key, insert_pos(s, x, key)),
    decreases s.len(),
{
    if s.len() > 0 && bytes_lt(key(x), key(s.last())) {
        let t = s.drop_last();
        lemma_insert_pos_is_insert_point(t, x, key);
        let j = insert_pos(t, x, key);
        assert forall|m: int| j <= m < s.len() implies bytes_lt(key(x), #[trigger] key(s[m])) by {
            if m < t.len() {
                assert(s[m] == t[m]);
                assert(bytes_lt(key(x), key(t[m])));
            }
        }
        if j > 0 {
            assert(s[j - 1] == t[j - 1]);
        }
    }
}

/// `insert_by` puts `x` at its insert point.
pub proof fn lemma_insert_at<A>(s: Seq<A>, x: A, key: spec_fn(A) -> Seq<u8>, j: int)
    requires
        is_insert_point(s, x, key, j),
    ensures
        insert_by(s, x, key) == s.insert(j, x),
    decreases s.len(),
{
    if s.len() == 0 {
        assert(s.insert(j, x) =~= seq![x]);
    } else if j == s.len() {
        assert(s.insert(j, x) =~= s.push(x));
    } else {
        let t = s.drop_last();
        assert(bytes_lt(key(x), key(s[s.len() - 1])));
        assert(is_insert_point(t, x, key, j)) by {
            assert forall|m: int| j <= m < t.len() implies bytes_lt(key(x), #[trigger] key(t[m])) by {
                assert(t[m] == s[m]);
            }
        }
        lemma_insert_at(t, x, key, j);
        assert(t.insert(j, x).push(s.last()) =~= s.insert(j, x));
    }
}

proof fn lemma_insert_keeps_sorted<A>(s: Seq<A>, x: A, key: spec_fn(A) -> Seq<u8>, j: int)
    requires
        sorted_by(s, key),
        is_insert_point(s, x, key, j),
    ensures
        sorted_by(s.insert(j, x), key),
{
    let r = s.insert(j, x);
    s.insert_ensures(j, x);
    assert forall|a: int, b: int| 0 <= a < b < r.len() implies !bytes_lt(key(r[b]), key(r[a])) by {
        if b < j {
        } else if b == j {
            // r[a] = s[a] with a < j: key(x) is not below key(s[j-1]) >= key(s[a])
            assert(r[a] == s[a]);
            if a < j - 1 {
                lemma_bytes_not_lt_transitive(key(x), key(s[j - 1]), key(s[a]));
            }
        } else if a == j {
            assert(r[b] == s[b - 1]);
            assert(bytes_lt(key(x), key(s[b - 1])));
            lemma_bytes_lt_total(key(x), key(s[b - 1]));
        } else if a < j {
            assert(r[a] == s[a]);
            assert(r[b] == s[b - 1]);
        } else {
            assert(r[a] == s[a - 1]);
            assert(r[b] == s[b - 1]);
        }
    }
}

proof fn lemma_filter_none<A>(s: Seq<A>, pred: spec_fn(A) -> bool)
    requires
        forall|i: int| 0 <= i < s.len() ==> !pred(#[trigger] s[i]),
    ensures
        s.filter(pred) == Seq::<A>::empty(),
    decreases s.len(),
{
    reveal(Seq::filter);
    if s.len() > 0 {
        lemma_filter_none(s.drop_last(), pred);
    }
}

/// Whether an element has the key `k`.
pub open spec fn has_key<A>(key: spec_fn(A) -> Seq<u8>, k: Seq<u8>) -> spec_fn(A) -> bool {
    |y: A| key(y) == k
}

/// The elements with one given key, in order.
pub open spec fn with_key<A>(s: Seq<A>, key: spec_fn(A) -> Seq<u8>, k: Seq<u8>) -> Seq<A> {
    s.filter(has_key(key, k))
}

proof fn lemma_insert_with_key<A>(
    s: Seq<A>,
    x: A,
    key: spec_fn(A) -> Seq<u8>,
    j: int,
    k: Seq<u8>,
)
    requires
        is_insert_point(s, x, key, j),
    ensures
        with_key(s.insert(j, x), key, k) == if key(x) == k {
            with_key(s, key, k).push(x)
        } else {
            with_key(s, key, k)
        },
{
    let pred = has_key(key, k);
    let pre = s.subrange(0, j);
    let post = s.subrange(j, s.len() as int);
    assert(s =~= pre + post);
    assert(s.insert(j, x) == pre.push(x) + post);
    Seq::filter_distributes_over_add(pre.push(x), post, pred);
    Seq::filter_distributes_over_add(pre, post, pred);
    pre.lemma_filter_push(x, pred);
    if key(x) == k {
        assert forall|i: int| 0 <= i < post.len() implies !pred(#[trigger] post[i]) by {
            assert(post[i] == s[j + i]);
            assert(bytes_lt(key(x), key(s[j + i])));
            lemma_bytes_lt_irreflexive(key(x));
        }
        lemma_filter_none(post, pred);
        assert(pre.filter(pred) + post.filter(pred) =~= pre.filter(pred));
        assert(pre.filter(pred).push(x) + post.filter(pred) =~= pre.filter(pred).push(x));
    }
}

proof fn lemma_insert_multiset<A>(s: Seq<A>, x: A, j: int)
    requires
        0 <= j <= s.len(),
    ensures
        s.insert(j, x).to_multiset() =~= s.to_multiset().insert(x),
{
    let pre = s.subrange(0, j);
    let post = s.subrange(j, s.len() as int);
    assert(s =~= pre + post);
    assert(s.insert(j, x) == pre.push(x) + post);
    vstd::seq_lib::lemma_multiset_commutative(pre.push(x), post);
    vstd::seq_lib::lemma_multiset_commutative(pre, post);
    pre.to_multiset_ensures();
}

/// Law: the stable sort orders its result by the key.
pub proof fn lemma_sort_by_sorted<A>(s: Seq<A>, key: spec_fn(A) -> Seq<u8>)
    ensures
        sorted_by(sort_by(s, key), key),
    decreases s.len(),
{
    if s.len() > 0 {
        let t = sort_by(s.drop_last(), key);
        lemma_sort_by_sorted(s.drop_last(), key);
        let j = insert_pos(t, s.last(), key);
        lemma_insert_pos_is_insert_point(t, s.last(), key);
        lemma_insert_at(t, s.last(), key, j);
        lemma_insert_keeps_sorted(t, s.last(), key, j);
    }
}

/// Law: the stable sort only reorders: it keeps every element, as often as
/// it occurs.
pub proof fn lemma_sort_by_permutes<A>(s: Seq<A>, key: spec_fn(A) -> Seq<u8>)
    ensures
        sort_by(s, key).to_multiset() =~= s.to_multiset(),
    decreases s.len(),
{
    if s.len() > 0 {
        let t = sort_by(s.drop_last(), key);
        lemma_sort_by_permutes(s.drop_last(), key);
        let j = insert_pos(t, s.last(), key);
        lemma_insert_pos_is_insert_point(t, s.last(), key);
        lemma_insert_at(t, s.last(), key, j);
        lemma_insert_multiset(t, s.last(), j);
        s.drop_last().to_multiset_ensures();
        assert(s.drop_last().push(s.last()) =~= s);
    }
}

/// Law: the sort is stable: the elements that share a key keep their
/// relative order.
pub proof fn lemma_sort_by_stable<A>(s: Seq<A>, key: spec_fn(A) -> Seq<u8>, k: Seq<u8>)
    ensures
        with_key(sort_by(s, key), key, k) == with_key(s, key, k),
    decreases s.len(),
{
    if s.len() > 0 {
        let t = sort_by(s.drop_last(), key);
        lemma_sort_by_stable(s.drop_last(), key, k);
        let j = insert_pos(t, s.last(), key);
        lemma_insert_pos_is_insert_point(t, s.last(), key);
        lemma_insert_at(t, s.last(), key, j);
        lemma_insert_with_key(t, s.last(), key, j, k);
        assert(s.drop_last().push(s.last()) =~= s);
        s.drop_last().lemma_filter_push(s.last(), has_key(key, k));
    }
}

} // verus!
