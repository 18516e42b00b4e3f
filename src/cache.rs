//! The content cache: values already materialised from a path, keyed by the
//! case-normalised path and the name of the type they were read as.
//!
//! The cache itself holds no clock and no lock. Every call that reads or
//! stamps an access time is handed `now`, a reading in milliseconds of a clock
//! the owner keeps; sharing between threads is the owner's business.
use std::sync::Arc;
use vstd::prelude::*;

verus! {

/// How long an entry may go untouched before a sweep removes it (3 minutes).
pub const LIFESPAN_MS: u64 = 180000;

/// The interval over which filesystem events are batched before they are applied.
pub const DEBOUNCE_MS: u64 = 5;

/// What `str::to_lowercase` makes of a string.
pub uninterp spec fn lower_of(s: Seq<char>) -> Seq<char>;

/// Relies on `str::to_lowercase`: the lower-case form depends on the characters alone.
#[verifier::external_body]
fn lowercase(s: &str) -> (r: String)
    ensures
        r@ == lower_of(s@),
{
    s.to_lowercase()
}

/// Relies on `Arc::clone`: the new pointer refers to the same allocation.
#[verifier::external_body]
fn share<V>(a: &Arc<V>) -> (r: Arc<V>)
    ensures
        r == *a,
{
    Arc::clone(a)
}

/// A key of the cache: normalised path and type name.
pub type CacheKey = (Seq<char>, Seq<char>);

/// What the cache holds under a key: last access time and the value.
pub type Slot<V> = (u64, Arc<V>);

/// The key under which a value read from `path` as type `ty` is kept.
pub open spec fn cache_key(path: Seq<char>, ty: Seq<char>) -> CacheKey {
    (lower_of(path), ty)
}

/// Time passed between `t` and `now`; a stamp from the future counts as no time.
pub open spec fn elapsed(t: u64, now: u64) -> int {
    if now >= t {
        now - t
    } else {
        0
    }
}

/// The value stored under `k`, if any.
pub open spec fn lookup<V>(m: Map<CacheKey, Slot<V>>, k: CacheKey) -> Option<Arc<V>> {
    if m.contains_key(k) {
        Some(m[k].1)
    } else {
        None
    }
}

/// `m` after a read of `k` at `now`: a present entry gets its stamp refreshed.
pub open spec fn touched<V>(m: Map<CacheKey, Slot<V>>, k: CacheKey, now: u64) -> Map<
    CacheKey,
    Slot<V>,
> {
    if m.contains_key(k) {
        m.insert(k, (now, m[k].1))
    } else {
        m
    }
}

/// `m` after a sweep at `now`: the entries untouched for `age` or longer are gone.
pub open spec fn swept<V>(m: Map<CacheKey, Slot<V>>, now: u64, age: u64) -> Map<
    CacheKey,
    Slot<V>,
> {
    Map::new(|k: CacheKey| m.contains_key(k) && elapsed(m[k].0, now) < age, |k: CacheKey| m[k])
}

/// `m` without the entries whose normalised path is one of `paths`, whatever their type.
pub open spec fn without_paths<V>(m: Map<CacheKey, Slot<V>>, paths: Seq<Seq<char>>) -> Map<
    CacheKey,
    Slot<V>,
> {
    Map::new(|k: CacheKey| m.contains_key(k) && !paths.contains(k.0), |k: CacheKey| m[k])
}

/// The normalised forms of `paths`, in order.
pub open spec fn lowered(paths: Seq<String>) -> Seq<Seq<char>> {
    paths.map_values(|p: String| lower_of(p@))
}

/// One stored value with its key and access stamp.
pub struct CacheEntry<V> {
    pub path: String,
    pub ty: String,
    pub accessed: u64,
    pub value: Arc<V>,
}

impl<V> CacheEntry<V> {
    pub open spec fn key(&self) -> CacheKey {
        (self.path@, self.ty@)
    }

    pub open spec fn slot(&self) -> Slot<V> {
        (self.accessed, self.value)
    }

    fn duplicate(&self, accessed: u64) -> (r: CacheEntry<V>)
        ensures
            r.path == self.path,
            r.ty == self.ty,
            r.accessed == accessed,
            r.value == self.value,
    {
        CacheEntry {
            path: self.path.clone(),
            ty: self.ty.clone(),
            accessed,
            value: share(&self.value),
        }
    }
}

/// Cache of materialised values.
pub struct FsCache<V> {
    entries: Vec<CacheEntry<V>>,
    model: Ghost<Map<CacheKey, Slot<V>>>,
}

pub open spec fn keys_unique<V>(s: Seq<CacheEntry<V>>) -> bool {
    forall|i: int, j: int|
        0 <= i < s.len() && 0 <= j < s.len() && i != j ==> #[trigger] s[i].key() != #[trigger] s[j].key()
}

/// `s` holds exactly the entries of `m`, one per key.
pub open spec fn represents<V>(s: Seq<CacheEntry<V>>, m: Map<CacheKey, Slot<V>>) -> bool {
    &&& keys_unique(s)
    &&& forall|i: int|
        0 <= i < s.len() ==> m.contains_key(#[trigger] s[i].key()) && m[s[i].key()] == s[i].slot()
    &&& forall|k: CacheKey| m.contains_key(k) ==> exists|i: int| 0 <= i < s.len() && #[trigger] s[i].key() == k
}

impl<V> View for FsCache<V> {
    type V = Map<CacheKey, Slot<V>>;

    closed spec fn view(&self) -> Map<CacheKey, Slot<V>> {
        self.model@
    }
}

/// `s` with `e` put at `p`: over the entry there, or appended when `p` is
/// the length.
pub open spec fn put<V>(s: Seq<CacheEntry<V>>, p: int, e: CacheEntry<V>) -> Seq<CacheEntry<V>> {
    if p < s.len() {
        s.update(p, e)
    } else {
        s.push(e)
    }
}

/// Putting an entry over the one of the same key, or appending one whose key
/// is new, represents the map with that key set to the entry's slot.
proof fn lemma_put<V>(s: Seq<CacheEntry<V>>, m: Map<CacheKey, Slot<V>>, p: int, e: CacheEntry<V>)
    requires
        represents(s, m),
        0 <= p <= s.len(),
        p < s.len() ==> s[p].key() == e.key(),
        p == s.len() ==> !m.contains_key(e.key()),
    ensures
        represents(put(s, p, e), m.insert(e.key(), e.slot())),
{
    let t = put(s, p, e);
    let m2 = m.insert(e.key(), e.slot());
    assert(t[p] == e);
    assert forall|j: int| 0 <= j < t.len() && j != p implies t[j] == s[j] by {}
    assert forall|j: int| 0 <= j < t.len() implies m2.contains_key(#[trigger] t[j].key()) && m2[t[j].key()]
        == t[j].slot() by {
        if j != p {
            assert(t[j] == s[j]);
            assert(s[j].key() != e.key()) by {
                if p < s.len() {
                    assert(s[j].key() != s[p].key());
                }
            }
        }
    }
    assert forall|k: CacheKey| m2.contains_key(k) implies exists|j: int| 0 <= j < t.len() && #[trigger] t[j].key() == k by {
        if k == e.key() {
            assert(t[p].key() == k);
        } else {
            let j = choose|j: int| 0 <= j < s.len() && #[trigger] s[j].key() == k;
            assert(t[j] == s[j]);
        }
    }
    assert forall|a: int, b: int| 0 <= a < t.len() && 0 <= b < t.len() && a != b implies #[trigger] t[a].key()
        != #[trigger] t[b].key() by {
        if a != p && b != p {
            assert(t[a] == s[a] && t[b] == s[b]);
        } else if a == p {
            assert(t[b] == s[b]);
            if p < s.len() {
                assert(s[b].key() != s[p].key());
            } else {
                assert(m.contains_key(s[b].key()));
            }
        } else {
            assert(t[a] == s[a]);
            if p < s.len() {
                assert(s[a].key() != s[p].key());
            } else {
                assert(m.contains_key(s[a].key()));
            }
        }
    }
}

impl<V> FsCache<V> {
    /// The entries stored represent the map that is the cache's view.
    pub closed spec fn wf(&self) -> bool {
        represents(self.entries@, self.model@)
    }

    /// An empty cache.
    pub fn new() -> (r: Self)
        ensures
            r.wf(),
            r@ == Map::<CacheKey, Slot<V>>::empty(),
    {
        FsCache { entries: Vec::new(), model: Ghost(Map::empty()) }
    }

    /// Number of entries held.
    pub fn len(&self) -> (r: usize)
        requires
            self.wf(),
        ensures
            r == self@.len(),
    {
        proof {
            self.lemma_dom_len();
        }
        self.entries.len()
    }

    proof fn lemma_dom_len(&self)
        requires
            self.wf(),
        ensures
            self@.dom().finite(),
            self@.len() == self.entries@.len(),
    {
        let s = self.entries@;
        let m = self.model@;
        let f = |i: int| s[i].key();
        let idx = Set::new(|i: int| 0 <= i < s.len());
        assert(idx =~= vstd::set_lib::set_int_range(0, s.len() as int));
        vstd::set_lib::lemma_int_range(0, s.len() as int);
        assert(m.dom() =~= idx.map(f)) by {
            assert forall|k: CacheKey| m.dom().contains(k) implies idx.map(f).contains(k) by {
                let i = choose|i: int| 0 <= i < s.len() && #[trigger] s[i].key() == k;
                assert(idx.contains(i));
            }
        }
        assert(vstd::relations::injective_on(f, idx)) by {
            assert forall|a: int, b: int| idx.contains(a) && idx.contains(b) && #[trigger] f(a) == #[trigger] f(b) implies a == b by {
                if a != b {
                    assert(s[a].key() != s[b].key());
                }
            }
        }
        vstd::set_lib::lemma_map_size(idx, idx.map(f), f);
    }

    /// Index of the entry with key `(path, ty)`, if there is one.
    fn find(&self, path: &String, ty: &String) -> (r: Option<usize>)
        requires
            self.wf(),
        ensures
            match r {
                Some(i) => i < self.entries@.len() && self.entries@[i as int].key() == (path@, ty@),
                None => !self@.contains_key((path@, ty@)),
            },
    {
        let mut i: usize = 0;
        while i < self.entries.len()
            invariant
                self.wf(),
                i <= self.entries@.len(),
                forall|j: int| 0 <= j < i ==> #[trigger] self.entries@[j].key() != (path@, ty@),
            decreases self.entries@.len() - i,
        {
            let e = &self.entries[i];
            if e.path == *path && e.ty == *ty {
                return Some(i);
            }
            i = i + 1;
        }
        None
    }

    /// The value read from `path` as `ty`, if it is cached; a hit refreshes the
    /// entry's access stamp to `now`.
    pub fn get(&mut self, path: &str, ty: &str, now: u64) -> (r: Option<Arc<V>>)
        requires
            old(self).wf(),
        ensures
            final(self).wf(),
            r == lookup(old(self)@, cache_key(path@, ty@)),
            final(self)@ == touched(old(self)@, cache_key(path@, ty@), now),
    {
        let key = lowercase(path);
        let tys = String::from_str(ty);
        match self.find(&key, &tys) {
            None => None,
            Some(i) => {
                let ne = self.entries[i].duplicate(now);
                let r = share(&self.entries[i].value);
                proof {
                    lemma_put(self.entries@, self.model@, i as int, ne);
                    self.model@ = self.model@.insert(ne.key(), ne.slot());
                }
                self.entries.set(i, ne);
                Some(r)
            },
        }
    }

    /// Stores `value` as what `path` reads as `ty`, stamped `now`; an entry
    /// already under that key is replaced.
    pub fn insert(&mut self, path: &str, ty: &str, value: Arc<V>, now: u64)
        requires
            old(self).wf(),
        ensures
            final(self).wf(),
            final(self)@ == old(self)@.insert(cache_key(path@, ty@), (now, value)),
    {
        let key = lowercase(path);
        let ne = CacheEntry { path: key, ty: String::from_str(ty), accessed: now, value };
        match self.find(&ne.path, &ne.ty) {
            Some(i) => {
                proof {
                    lemma_put(self.entries@, self.model@, i as int, ne);
                    self.model@ = self.model@.insert(ne.key(), ne.slot());
                }
                self.entries.set(i, ne);
            },
            None => {
                proof {
                    lemma_put(self.entries@, self.model@, self.entries@.len() as int, ne);
                    self.model@ = self.model@.insert(ne.key(), ne.slot());
                }
                self.entries.push(ne);
            },
        }
    }

    /// Keeps the entries whose flag in `keep` is set, drops the others.
    fn keep_only(&mut self, keep: &Vec<bool>)
        requires
            old(self).wf(),
            keep@.len() == old(self).entries@.len(),
        ensures
            final(self).wf(),
            forall|k: CacheKey|
                #[trigger] final(self)@.contains_key(k) <==> exists|i: int|
                    0 <= i < keep@.len() && keep@[i] && #[trigger] old(self).entries@[i].key() == k,
            forall|k: CacheKey| #[trigger] final(self)@.contains_key(k) ==> final(self)@[k] == old(self)@[k],
    {
        let ghost old_entries = self.entries@;
        let ghost m = self.model@;
        let mut out: Vec<CacheEntry<V>> = Vec::new();
        let ghost mut idx: Seq<int> = Seq::empty();
        let mut i: usize = 0;
        while i < self.entries.len()
            invariant
                self.wf(),
                self.entries@ == old_entries,
                self.model@ == m,
                keep@.len() == old_entries.len(),
                i <= old_entries.len(),
                out@.len() == idx.len(),
                forall|j: int|
                    0 <= j < idx.len() ==> 0 <= #[trigger] idx[j] < i && keep@[idx[j]] && out@[j].key()
                        == old_entries[idx[j]].key() && out@[j].slot() == old_entries[idx[j]].slot(),
                forall|a: int, b: int| 0 <= a < b < idx.len() ==> #[trigger] idx[a] < #[trigger] idx[b],
                forall|t: int| 0 <= t < i && keep@[t] ==> exists|j: int| 0 <= j < idx.len() && #[trigger] idx[j] == t,
            decreases old_entries.len() - i,
        {
            let ghost prev = idx;
            if keep[i] {
                let e = self.entries[i].duplicate(self.entries[i].accessed);
                out.push(e);
                proof {
                    idx = idx.push(i as int);
                }
            }
            proof {
                assert forall|t: int| 0 <= t < i + 1 && keep@[t] implies exists|j: int|
                    0 <= j < idx.len() && #[trigger] idx[j] == t by {
                    if t == i {
                        assert(idx[idx.len() - 1] == t);
                    } else {
                        let j = choose|j: int| 0 <= j < prev.len() && #[trigger] prev[j] == t;
                        assert(idx[j] == t);
                    }
                }
            }
            i = i + 1;
        }
        let ghost nm = Map::new(
            |k: CacheKey| exists|j: int| 0 <= j < out@.len() && #[trigger] out@[j].key() == k,
            |k: CacheKey| m[k],
        );
        proof {
            assert forall|a: int, b: int|
                0 <= a < out@.len() && 0 <= b < out@.len() && a != b implies #[trigger] out@[a].key()
                != #[trigger] out@[b].key() by {
                if a < b {
                    assert(idx[a] < idx[b]);
                } else {
                    assert(idx[b] < idx[a]);
                }
                assert(old_entries[idx[a]].key() != old_entries[idx[b]].key());
            }
            assert forall|j: int| 0 <= j < out@.len() implies nm.contains_key(#[trigger] out@[j].key())
                && nm[out@[j].key()] == out@[j].slot() by {
                assert(m.contains_key(old_entries[idx[j]].key()));
            }
            assert forall|k: CacheKey| #[trigger] nm.contains_key(k) <==> exists|t: int|
                0 <= t < keep@.len() && keep@[t] && #[trigger] old_entries[t].key() == k by {
                if nm.contains_key(k) {
                    let j = choose|j: int| 0 <= j < out@.len() && #[trigger] out@[j].key() == k;
                    assert(old_entries[idx[j]].key() == k);
                }
                if exists|t: int| 0 <= t < keep@.len() && keep@[t] && #[trigger] old_entries[t].key() == k {
                    let t = choose|t: int| 0 <= t < keep@.len() && keep@[t] && #[trigger] old_entries[t].key() == k;
                    let j = choose|j: int| 0 <= j < idx.len() && #[trigger] idx[j] == t;
                    assert(out@[j].key() == k);
                }
            }
        }
        self.entries = out;
        self.model = Ghost(nm);
    }

    /// Drops every entry untouched for `age` milliseconds or longer at `now`.
    pub fn remove_expired(&mut self, now: u64, age: u64)
        requires
            old(self).wf(),
        ensures
            final(self).wf(),
            final(self)@ == swept(old(self)@, now, age),
    {
        let ghost old_entries = self.entries@;
        let mut keep: Vec<bool> = Vec::new();
        let mut i: usize = 0;
        while i < self.entries.len()
            invariant
                i <= self.entries@.len(),
                keep@.len() == i,
                forall|t: int| 0 <= t < i ==> #[trigger] keep@[t] == (elapsed(self.entries@[t].accessed, now) < age),
            decreases self.entries@.len() - i,
        {
            let t = self.entries[i].accessed;
            let passed: u64 = if now >= t { now - t } else { 0 };
            keep.push(passed < age);
            i = i + 1;
        }
        let ghost m = self.model@;
        self.keep_only(&keep);
        proof {
            assert forall|k: CacheKey| #[trigger] self@.contains_key(k) == swept(m, now, age).contains_key(k) by {
                if m.contains_key(k) {
                    let t = choose|t: int| 0 <= t < old_entries.len() && #[trigger] old_entries[t].key() == k;
                    assert(keep@[t] == (elapsed(m[k].0, now) < age));
                }
            }
            assert(self@ =~= swept(m, now, age));
        }
    }

    /// Drops every entry, of whatever type, read from one of `paths`; the paths
    /// are normalised as keys are.
    pub fn remove_path_changes(&mut self, paths: &Vec<String>)
        requires
            old(self).wf(),
        ensures
            final(self).wf(),
            final(self)@ == without_paths(old(self)@, lowered(paths@)),
    {
        let mut norm: Vec<String> = Vec::new();
        let mut i: usize = 0;
        while i < paths.len()
            invariant
                i <= paths@.len(),
                norm@.len() == i,
                forall|t: int| 0 <= t < i ==> (#[trigger] norm@[t])@ == lower_of(paths@[t]@),
            decreases paths@.len() - i,
        {
            norm.push(lowercase(paths[i].as_str()));
            i = i + 1;
        }
        let ghost ps = lowered(paths@);
        let ghost old_entries = self.entries@;
        let mut keep: Vec<bool> = Vec::new();
        let mut i: usize = 0;
        while i < self.entries.len()
            invariant
                i <= self.entries@.len(),
                keep@.len() == i,
                norm@.len() == ps.len(),
                forall|t: int| 0 <= t < ps.len() ==> (#[trigger] norm@[t])@ == ps[t],
                forall|t: int| 0 <= t < i ==> #[trigger] keep@[t] == !ps.contains(self.entries@[t].path@),
            decreases self.entries@.len() - i,
        {
            let mut hit = false;
            let mut j: usize = 0;
            while j < norm.len()
                invariant
                    j <= norm@.len(),
                    i < self.entries@.len(),
                    norm@.len() == ps.len(),
                    forall|t: int| 0 <= t < ps.len() ==> (#[trigger] norm@[t])@ == ps[t],
                    hit <==> exists|t: int| 0 <= t < j && #[trigger] ps[t] == self.entries@[i as int].path@,
                decreases norm@.len() - j,
            {
                if norm[j] == self.entries[i].path {
                    hit = true;
                }
                j = j + 1;
            }
            keep.push(!hit);
            i = i + 1;
        }
        let ghost m = self.model@;
        self.keep_only(&keep);
        proof {
            assert forall|k: CacheKey| #[trigger] self@.contains_key(k) == without_paths(m, ps).contains_key(k) by {
                if m.contains_key(k) {
                    let t = choose|t: int| 0 <= t < old_entries.len() && #[trigger] old_entries[t].key() == k;
                    assert(keep@[t] == !ps.contains(k.0));
                }
            }
            assert(self@ =~= without_paths(m, ps));
        }
    }
}

/// A read of the path and type that a value was just stored under gives that
/// value back, and stores of other keys leave what a read gives unchanged.
pub proof fn law_get_after_insert<V>(
    m: Map<CacheKey, Slot<V>>,
    path: Seq<char>,
    ty: Seq<char>,
    value: Arc<V>,
    now: u64,
    other: CacheKey,
    other_value: Arc<V>,
    later: u64,
)
    requires
        other != cache_key(path, ty),
    ensures
        lookup(m.insert(cache_key(path, ty), (now, value)), cache_key(path, ty)) == Some(value),
        lookup(
            m.insert(cache_key(path, ty), (now, value)).insert(other, (later, other_value)),
            cache_key(path, ty),
        ) == Some(value),
        lookup(touched(m.insert(cache_key(path, ty), (now, value)), cache_key(path, ty), later), cache_key(path, ty))
            == Some(value),
{
}

/// Once a change to a path is reported, a read of that path gives nothing,
/// whatever type it asks for, until a value is stored again.
pub proof fn law_get_after_change<V>(m: Map<CacheKey, Slot<V>>, path: String, ty: Seq<char>)
    ensures
        lookup(without_paths(m, lowered(seq![path])), cache_key(path@, ty)) == None::<Arc<V>>,
{
    assert(lowered(seq![path])[0] == lower_of(path@));
}

/// A sweep removes exactly the entries untouched for the lifespan or longer;
/// an entry read within the lifespan survives with its value.
pub proof fn law_sweep<V>(m: Map<CacheKey, Slot<V>>, k: CacheKey, now: u64, age: u64)
    ensures
        m.contains_key(k) && elapsed(m[k].0, now) >= age ==> !swept(m, now, age).contains_key(k),
        m.contains_key(k) && elapsed(m[k].0, now) < age ==> swept(m, now, age).contains_key(k)
            && swept(m, now, age)[k] == m[k],
        m.contains_key(k) && age > 0 ==> lookup(swept(touched(m, k, now), now, age), k) == lookup(m, k),
{
}

} // verus!
