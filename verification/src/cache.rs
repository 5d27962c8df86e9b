//! The cache of rendered page textures: at most a fixed number of them,
//! the least recently used one making room for a new one.
use egui::{TextureHandle, TextureId};
use lru::LruCache;
use std::num::NonZeroUsize;
use vstd::prelude::*;

verus! {

broadcast use vstd::seq_lib::group_seq_properties;

#[verifier::external_type_specification]
#[verifier::external_body]
pub struct ExTextureHandle(TextureHandle);

#[verifier::external_type_specification]
#[verifier::external_body]
#[verifier::reject_recursive_types(K)]
#[verifier::reject_recursive_types(V)]
#[verifier::reject_recursive_types(S)]
pub struct ExLruCache<K, V, S>(LruCache<K, V, S>);

#[verifier::external_type_specification]
#[verifier::external_body]
pub struct ExDefaultHasher(lru::DefaultHasher);

#[verifier::external_type_specification]
#[verifier::external_body]
pub struct ExTextureId(TextureId);

/// `TextureHandle::id`: the id of the texture a handle refers to; clones
/// of a handle refer to the same texture.
pub uninterp spec fn texture_id(t: TextureHandle) -> TextureId;

/// The entries of an LRU cache, most recently used first: each key with the
/// id of the texture stored under it.
pub uninterp spec fn lru_entries(cache: LruCache<String, TextureHandle>) -> Seq<(Seq<char>, TextureId)>;

/// The capacity an LRU cache was made with.
pub uninterp spec fn lru_capacity(cache: LruCache<String, TextureHandle>) -> nat;

/// Some entry has the key `k`.
pub open spec fn holds(entries: Seq<(Seq<char>, TextureId)>, k: Seq<char>) -> bool {
    exists|i: int| 0 <= i < entries.len() && (#[trigger] entries[i]).0 == k
}

/// No key occurs twice.
pub open spec fn distinct_keys(entries: Seq<(Seq<char>, TextureId)>) -> bool {
    forall|i: int, j: int|
        0 <= i < entries.len() && 0 <= j < entries.len() && i != j ==> (#[trigger] entries[i]).0
            != (#[trigger] entries[j]).0
}

/// The entries could be those of a cache of capacity `cap`: no key twice, no
/// more than `cap` of them.
pub open spec fn entries_fit(entries: Seq<(Seq<char>, TextureId)>, cap: nat) -> bool {
    &&& distinct_keys(entries)
    &&& entries.len() <= cap
    &&& cap > 0
}

/// The entries without the one of key `k`.
pub open spec fn without(entries: Seq<(Seq<char>, TextureId)>, k: Seq<char>) -> Seq<(Seq<char>, TextureId)> {
    entries.filter(|e: (Seq<char>, TextureId)| e.0 != k)
}

/// The entries after a lookup of `k`: the entry of that key, if any, moves
/// to the front.
pub open spec fn touched(entries: Seq<(Seq<char>, TextureId)>, k: Seq<char>) -> Seq<(Seq<char>, TextureId)> {
    if holds(entries, k) {
        let i = choose|i: int| 0 <= i < entries.len() && (#[trigger] entries[i]).0 == k;
        seq![entries[i]] + without(entries, k)
    } else {
        entries
    }
}

/// The entries after putting texture `id` under `k` into a cache of
/// capacity `cap`: the new entry comes to the front, replacing one of the
/// same key; when the key is new and the cache full, the least recently used
/// entry (the last) leaves.
pub open spec fn put_entries(
    entries: Seq<(Seq<char>, TextureId)>,
    k: Seq<char>,
    id: TextureId,
    cap: nat,
) -> Seq<(Seq<char>, TextureId)> {
    if holds(entries, k) {
        seq![(k, id)] + without(entries, k)
    } else if entries.len() == cap {
        seq![(k, id)] + entries.drop_last()
    } else {
        seq![(k, id)] + entries
    }
}

/// `LruCache::new(NonZeroUsize::new(capacity).unwrap())`: an empty cache
/// that holds at most `capacity` entries.
#[verifier::external_body]
fn lru_new(capacity: usize) -> (c: LruCache<String, TextureHandle>)
    requires
        capacity > 0,
    ensures
        lru_entries(c) == Seq::<(Seq<char>, TextureId)>::empty(),
        lru_capacity(c) == capacity,
{
    LruCache::new(NonZeroUsize::new(capacity).unwrap())
}

/// `LruCache::get` followed by a clone of the handle: the handle stored
/// under `key`, if any; its entry becomes the most recently used.
#[verifier::external_body]
fn lru_get(c: &mut LruCache<String, TextureHandle>, key: &str) -> (r: Option<TextureHandle>)
    ensures
        r is Some == holds(lru_entries(*old(c)), key@),
        r matches Some(t) ==> lru_entries(*old(c)).contains((key@, texture_id(t))),
        lru_entries(*final(c)) == touched(lru_entries(*old(c)), key@),
        lru_capacity(*final(c)) == lru_capacity(*old(c)),
{
    c.get(key).cloned()
}

/// `LruCache::put`: stores `value` under `key`, which becomes the most
/// recently used; a full cache first drops its least recently used entry
/// when `key` is new.
#[verifier::external_body]
fn lru_put(c: &mut LruCache<String, TextureHandle>, key: String, value: TextureHandle)
    ensures
        lru_entries(*final(c)) == put_entries(
            lru_entries(*old(c)),
            key@,
            texture_id(value),
            lru_capacity(*old(c)),
        ),
        lru_capacity(*final(c)) == lru_capacity(*old(c)),
{
    c.put(key, value);
}

/// `LruCache::clear`: drops every entry.
#[verifier::external_body]
fn lru_clear(c: &mut LruCache<String, TextureHandle>)
    ensures
        lru_entries(*final(c)) == Seq::<(Seq<char>, TextureId)>::empty(),
        lru_capacity(*final(c)) == lru_capacity(*old(c)),
{
    c.clear();
}

/// Dropping the last entry keeps the keys distinct, leaves every other
/// entry and takes no key with it but the last one's.
proof fn lemma_drop_last_facts(entries: Seq<(Seq<char>, TextureId)>, k: Seq<char>)
    requires
        distinct_keys(entries),
        entries.len() > 0,
    ensures
        distinct_keys(entries.drop_last()),
        !holds(entries, k) ==> !holds(entries.drop_last(), k),
        forall|x: (Seq<char>, TextureId)| #[trigger] entries.drop_last().contains(x) <==> (
        entries.contains(x) && x != entries.last()),
{
    let t = entries.drop_last();
    assert forall|i: int, j: int| 0 <= i < t.len() && 0 <= j < t.len() && i != j implies (
    #[trigger] t[i]).0 != (#[trigger] t[j]).0 by {
        assert(t[i] == entries[i] && t[j] == entries[j]);
    }
    if holds(t, k) {
        let i = choose|i: int| 0 <= i < t.len() && (#[trigger] t[i]).0 == k;
        assert(entries[i] == t[i]);
    }
    assert forall|x: (Seq<char>, TextureId)| #[trigger] t.contains(x) <==> (entries.contains(x) && x
        != entries.last()) by {
        if t.contains(x) {
            let i = choose|i: int| 0 <= i < t.len() && t[i] == x;
            assert(entries[i] == x);
            if x == entries.last() {
                assert(entries[i].0 == entries[entries.len() - 1].0);
            }
        }
        if entries.contains(x) && x != entries.last() {
            let i = choose|i: int| 0 <= i < entries.len() && entries[i] == x;
            assert(i < t.len());
            assert(t[i] == x);
        }
    }
}

proof fn lemma_without_facts(entries: Seq<(Seq<char>, TextureId)>, k: Seq<char>)
    requires
        distinct_keys(entries),
    ensures
        forall|e: (Seq<char>, TextureId)| #[trigger] without(entries, k).contains(e) <==> (entries.contains(e) && e.0 != k),
        distinct_keys(without(entries, k)),
        !holds(without(entries, k), k),
        holds(entries, k) ==> without(entries, k).len() == entries.len() - 1,
        !holds(entries, k) ==> without(entries, k) == entries,
    decreases entries.len(),
{
    reveal(Seq::filter);
    let pred = |e: (Seq<char>, TextureId)| e.0 != k;
    if entries.len() > 0 {
        let t = entries.drop_last();
        let last = entries.last();
        lemma_drop_last_facts(entries, k);
        lemma_without_facts(t, k);
        assert(entries =~= t.push(last));
        t.lemma_filter_push(last, pred);
        let wt = without(t, k);
        assert forall|e: (Seq<char>, TextureId)| #[trigger] without(entries, k).contains(e) <==> (entries.contains(e) && e.0 != k) by {
            if entries.contains(e) && e.0 != k {
                let i = choose|i: int| 0 <= i < entries.len() && entries[i] == e;
                if i < t.len() {
                    assert(t[i] == e);
                    assert(t.contains(e));
                } else {
                    assert(without(entries, k) == wt.push(last));
                    assert(without(entries, k)[wt.len() as int] == e);
                }
            }
            if without(entries, k).contains(e) {
                let i = choose|i: int| 0 <= i < without(entries, k).len() && without(entries, k)[i] == e;
                if last.0 != k {
                    assert(without(entries, k) == wt.push(last));
                    if i < wt.len() {
                        assert(wt[i] == e);
                        assert(wt.contains(e));
                    } else {
                        assert(e == last);
                        assert(entries[entries.len() - 1] == e);
                    }
                } else {
                    assert(wt[i] == e);
                    assert(wt.contains(e));
                }
                if t.contains(e) {
                    let m = choose|m: int| 0 <= m < t.len() && t[m] == e;
                    assert(entries[m] == e);
                }
            }
        }
        assert(!holds(t, last.0)) by {
            if holds(t, last.0) {
                let i = choose|i: int| 0 <= i < t.len() && (#[trigger] t[i]).0 == last.0;
                assert(entries[i].0 == entries[entries.len() - 1].0);
            }
        }
        assert(distinct_keys(without(entries, k))) by {
            if last.0 != k {
                let w = without(entries, k);
                assert(w == wt.push(last));
                assert forall|i: int, j: int| 0 <= i < w.len() && 0 <= j < w.len() && i != j implies (
                #[trigger] w[i]).0 != (#[trigger] w[j]).0 by {
                    if i < wt.len() && j < wt.len() {
                        assert(w[i] == wt[i] && w[j] == wt[j]);
                    } else if i < wt.len() {
                        assert(w[i] == wt[i]);
                        assert(wt.contains(wt[i]));
                        assert(t.contains(wt[i]));
                        let m = choose|m: int| 0 <= m < t.len() && t[m] == wt[i];
                        assert(holds(t, t[m].0));
                    } else if j < wt.len() {
                        assert(w[j] == wt[j]);
                        assert(wt.contains(wt[j]));
                        assert(t.contains(wt[j]));
                        let m = choose|m: int| 0 <= m < t.len() && t[m] == wt[j];
                        assert(holds(t, t[m].0));
                    }
                }
            }
        }
        assert(!holds(without(entries, k), k)) by {
            let w = without(entries, k);
            if holds(w, k) {
                let i = choose|i: int| 0 <= i < w.len() && (#[trigger] w[i]).0 == k;
                assert(w.contains(w[i]));
            }
        }
        if holds(entries, k) {
            let i = choose|i: int| 0 <= i < entries.len() && (#[trigger] entries[i]).0 == k;
            if i < t.len() {
                assert(t[i].0 == k);
                assert(holds(t, k));
                assert(last.0 != k);
            }
        } else {
            assert(last.0 != k) by {
                assert(entries[entries.len() - 1] == last);
            }
            assert(!holds(t, k)) by {
                if holds(t, k) {
                    let i = choose|i: int| 0 <= i < t.len() && (#[trigger] t[i]).0 == k;
                    assert(entries[i] == t[i]);
                }
            }
        }
    } else {
        assert(without(entries, k) =~= entries);
    }
}

proof fn lemma_front_fits(e: (Seq<char>, TextureId), rest: Seq<(Seq<char>, TextureId)>)
    requires
        distinct_keys(rest),
        !holds(rest, e.0),
    ensures
        distinct_keys(seq![e] + rest),
        forall|x: (Seq<char>, TextureId)| #[trigger] (seq![e] + rest).contains(x) <==> (x == e || rest.contains(x)),
{
    let s = seq![e] + rest;
    assert forall|i: int, j: int| 0 <= i < s.len() && 0 <= j < s.len() && i != j implies (
    #[trigger] s[i]).0 != (#[trigger] s[j]).0 by {
        if i > 0 && j > 0 {
            assert(s[i] == rest[i - 1] && s[j] == rest[j - 1]);
        } else if i == 0 {
            assert(s[j] == rest[j - 1]);
            if s[j].0 == e.0 {
                assert(holds(rest, e.0));
            }
        } else {
            assert(s[i] == rest[i - 1]);
            if s[i].0 == e.0 {
                assert(holds(rest, e.0));
            }
        }
    }
    assert forall|x: (Seq<char>, TextureId)| #[trigger] s.contains(x) <==> (x == e || rest.contains(x)) by {
        if rest.contains(x) {
            let i = choose|i: int| 0 <= i < rest.len() && rest[i] == x;
            assert(s[i + 1] == x);
        }
        if s.contains(x) {
            let i = choose|i: int| 0 <= i < s.len() && s[i] == x;
            if i > 0 {
                assert(rest[i - 1] == x);
            }
        }
        if x == e {
            assert(s[0] == x);
        }
    }
}

/// Law: putting an entry keeps the entries fitting the capacity.
pub proof fn lemma_put_keeps_fit(entries: Seq<(Seq<char>, TextureId)>, k: Seq<char>, id: TextureId, cap: nat)
    requires
        entries_fit(entries, cap),
    ensures
        entries_fit(put_entries(entries, k, id, cap), cap),
{
    lemma_without_facts(entries, k);
    if holds(entries, k) {
        lemma_front_fits((k, id), without(entries, k));
    } else if entries.len() == cap {
        lemma_drop_last_facts(entries, k);
        lemma_front_fits((k, id), entries.drop_last());
    } else {
        lemma_front_fits((k, id), entries);
    }
}

/// Law: after a texture is put under a key, the key's entry is the most
/// recently used one and holds that texture; no other entry has the key,
/// so a lookup of the key gives back the texture put.
pub proof fn lemma_put_then_found(entries: Seq<(Seq<char>, TextureId)>, k: Seq<char>, id: TextureId, cap: nat)
    requires
        entries_fit(entries, cap),
    ensures
        put_entries(entries, k, id, cap)[0] == (k, id),
        forall|x: (Seq<char>, TextureId)| #[trigger] put_entries(entries, k, id, cap).contains(x) && x.0 == k ==> x.1 == id,
{
    let r = put_entries(entries, k, id, cap);
    assert(r[0] == (k, id));
    lemma_put_keeps_fit(entries, k, id, cap);
    assert forall|x: (Seq<char>, TextureId)| #[trigger] r.contains(x) && x.0 == k implies x.1 == id by {
        let i = choose|i: int| 0 <= i < r.len() && r[i] == x;
        if i != 0 {
            assert(r[i].0 == r[0].0);
        }
    }
}

/// Law: a put keeps every entry of another key, except that putting a new
/// key into a full cache drops the least recently used entry, and only that
/// one.
pub proof fn lemma_put_evicts_least_recent(
    entries: Seq<(Seq<char>, TextureId)>,
    k: Seq<char>,
    id: TextureId,
    cap: nat,
    x: (Seq<char>, TextureId),
)
    requires
        entries_fit(entries, cap),
        x.0 != k,
    ensures
        put_entries(entries, k, id, cap).contains(x) <==> (entries.contains(x) && !(!holds(entries, k)
            && entries.len() == cap && x == entries.last())),
{
    lemma_without_facts(entries, k);
    if holds(entries, k) {
        lemma_front_fits((k, id), without(entries, k));
    } else if entries.len() == cap {
        lemma_drop_last_facts(entries, k);
        lemma_front_fits((k, id), entries.drop_last());
    } else {
        lemma_front_fits((k, id), entries);
    }
}

/// Law: a lookup reorders the entries but keeps them all, and keeps them
/// fitting.
pub proof fn lemma_touch_keeps_entries(entries: Seq<(Seq<char>, TextureId)>, k: Seq<char>, x: (Seq<char>, TextureId))
    requires
        distinct_keys(entries),
    ensures
        touched(entries, k).contains(x) <==> entries.contains(x),
        touched(entries, k).len() == entries.len(),
        distinct_keys(touched(entries, k)),
{
    lemma_without_facts(entries, k);
    if holds(entries, k) {
        let i = choose|i: int| 0 <= i < entries.len() && (#[trigger] entries[i]).0 == k;
        lemma_front_fits(entries[i], without(entries, k));
        if x.0 == k && entries.contains(x) {
            let m = choose|m: int| 0 <= m < entries.len() && entries[m] == x;
            assert(m == i);
        }
    }
}

/// The cache of page textures, keyed by texture name.
pub struct TextureCache {
    cache: LruCache<String, TextureHandle>,
}

impl TextureCache {
    /// The entries held, most recently used first: each name with the id of
    /// its texture.
    pub closed spec fn entries(&self) -> Seq<(Seq<char>, TextureId)> {
        lru_entries(self.cache)
    }

    /// The most textures the cache holds.
    pub closed spec fn capacity(&self) -> nat {
        lru_capacity(self.cache)
    }

    /// An empty cache holding at most `capacity` textures.
    pub fn new(capacity: usize) -> (r: Self)
        requires
            capacity > 0,
        ensures
            r.entries() == Seq::<(Seq<char>, TextureId)>::empty(),
            r.capacity() == capacity,
            entries_fit(r.entries(), r.capacity()),
    {
        let cache = lru_new(capacity);
        TextureCache { cache }
    }

    /// The texture named `key`, if held; it becomes the most recently used.
    pub fn get(&mut self, key: &str) -> (r: Option<TextureHandle>)
        ensures
            r is Some == holds(old(self).entries(), key@),
            r matches Some(t) ==> old(self).entries().contains((key@, texture_id(t))),
            final(self).entries() == touched(old(self).entries(), key@),
            final(self).capacity() == old(self).capacity(),
            entries_fit(old(self).entries(), old(self).capacity()) ==> entries_fit(
                final(self).entries(),
                final(self).capacity(),
            ),
    {
        let ghost before = lru_entries(self.cache);
        let r = lru_get(&mut self.cache, key);
        proof {
            if entries_fit(before, lru_capacity(self.cache)) {
                lemma_touch_keeps_entries(before, key@, (key@, arbitrary()));
            }
        }
        r
    }

    /// Stores `texture` under `key`, which becomes the most recently used;
    /// a full cache drops its least recently used texture for a new name.
    pub fn insert(&mut self, key: String, texture: TextureHandle)
        ensures
            final(self).entries() == put_entries(
                old(self).entries(),
                key@,
                texture_id(texture),
                old(self).capacity(),
            ),
            final(self).capacity() == old(self).capacity(),
            entries_fit(old(self).entries(), old(self).capacity()) ==> entries_fit(
                final(self).entries(),
                final(self).capacity(),
            ),
    {
        proof {
            if entries_fit(lru_entries(self.cache), lru_capacity(self.cache)) {
                lemma_put_keeps_fit(
                    lru_entries(self.cache),
                    key@,
                    texture_id(texture),
                    lru_capacity(self.cache),
                );
            }
        }
        lru_put(&mut self.cache, key, texture);
    }

    /// Drops every texture.
    pub fn clear(&mut self)
        ensures
            final(self).entries() == Seq::<(Seq<char>, TextureId)>::empty(),
            final(self).capacity() == old(self).capacity(),
            entries_fit(old(self).entries(), old(self).capacity()) ==> entries_fit(
                final(self).entries(),
                final(self).capacity(),
            ),
    {
        lru_clear(&mut self.cache);
    }
}

} // verus!
