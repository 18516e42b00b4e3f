//! Turning a batch of filesystem events into the paths whose cache entries
//! must go.
use crate::cache::{lower_of, lowered, CacheKey, FsCache};
use crate::parse::{begins_with, starts_with};
use vstd::prelude::*;
use vstd::string::*;

verus! {

/// A filesystem event under the watched root, with absolute paths.
pub enum FsEvent {
    Write(String),
    Create(String),
    Remove(String),
    /// A move from the first path to the second.
    Rename(String, String),
    /// Any event that does not change a file's contents.
    Other,
}

/// The paths that an event touches.
pub open spec fn event_paths(e: FsEvent) -> Seq<Seq<char>> {
    match e {
        FsEvent::Write(p) => seq![p@],
        FsEvent::Create(p) => seq![p@],
        FsEvent::Remove(p) => seq![p@],
        FsEvent::Rename(a, b) => seq![a@, b@],
        FsEvent::Other => seq![],
    }
}

/// `p` relative to `root`, where `p` is `root` or lies below it: the empty
/// path for `root` itself, else what follows `root` and the separator after
/// it (a root that ends in `/` carries its own separator).
pub open spec fn relative(root: Seq<char>, p: Seq<char>) -> Option<Seq<char>> {
    if begins_with(p, root) {
        if p.len() == root.len() {
            Some(Seq::empty())
        } else if root.len() > 0 && root.last() == '/' {
            Some(p.subrange(root.len() as int, p.len() as int))
        } else if p[root.len() as int] == '/' {
            Some(p.subrange(root.len() as int + 1, p.len() as int))
        } else {
            None
        }
    } else {
        None
    }
}

/// Some string of `v` has the characters `q`.
pub open spec fn lists(v: Seq<String>, q: Seq<char>) -> bool {
    exists|t: int| 0 <= t < v.len() && (#[trigger] v[t])@ == q
}

/// No two strings of `v` have the same characters.
pub open spec fn distinct(v: Seq<String>) -> bool {
    forall|a: int, b: int| 0 <= a < b < v.len() ==> (#[trigger] v[a])@ != (#[trigger] v[b])@
}

/// `q` is the relative form of a path that `e` touches.
pub open spec fn from_event(root: Seq<char>, e: FsEvent, q: Seq<char>) -> bool {
    exists|j: int| 0 <= j < event_paths(e).len() && relative(root, #[trigger] event_paths(e)[j]) == Some(q)
}

/// `q` is the relative form of a path that one of `events` touches.
pub open spec fn is_changed(root: Seq<char>, events: Seq<FsEvent>, q: Seq<char>) -> bool {
    exists|i: int, j: int|
        0 <= i < events.len() && 0 <= j < event_paths(events[i]).len() && relative(
            root,
            #[trigger] event_paths(events[i])[j],
        ) == Some(q)
}

/// The relative form of `p` below `root`, if it lies there.
pub fn relative_path(root: &str, p: &str) -> (r: Option<String>)
    ensures
        match r {
            Some(s) => relative(root@, p@) == Some(s@),
            None => relative(root@, p@) is None,
        },
{
    if !starts_with(p, root) {
        return None;
    }
    let n = root.unicode_len();
    let m = p.unicode_len();
    if m == n {
        return Some(String::new());
    }
    if n > 0 && root.get_char(n - 1) == '/' {
        return Some(String::from_str(p.substring_char(n, m)));
    }
    if p.get_char(n) != '/' {
        return None;
    }
    Some(String::from_str(p.substring_char(n + 1, m)))
}

/// Adds `s` to `out` unless a string with the same characters is there.
fn push_unique(out: &mut Vec<String>, s: String)
    requires
        distinct(old(out)@),
    ensures
        distinct(final(out)@),
        forall|q: Seq<char>|
            #[trigger] lists(final(out)@, q) <==> (q == s@
                || lists(old(out)@, q)),
{
    let mut i: usize = 0;
    while i < out.len()
        invariant
            out@ == old(out)@,
            distinct(out@),
            i <= out@.len(),
            forall|t: int| 0 <= t < i ==> (#[trigger] out@[t])@ != s@,
        decreases out@.len() - i,
    {
        if out[i] == s {
            assert(out@[i as int]@ == s@);
            assert forall|q: Seq<char>| #[trigger] lists(out@, q) <==> (q == s@ || lists(out@, q)) by {
                if q == s@ {
                    assert(out@[i as int]@ == q);
                }
            }
            return;
        }
        i = i + 1;
    }
    let ghost prev = out@;
    out.push(s);
    assert forall|a: int, b: int| 0 <= a < b < out@.len() implies (#[trigger] out@[a])@ != (#[trigger] out@[b])@ by {
        if b < prev.len() {
            assert(prev[a] == out@[a] && prev[b] == out@[b]);
        } else {
            assert(prev[a] == out@[a]);
        }
    }
    assert forall|q: Seq<char>| #[trigger] lists(out@, q) <==> (q == s@ || lists(prev, q)) by {
        if lists(out@, q) {
            let t = choose|t: int| 0 <= t < out@.len() && (#[trigger] out@[t])@ == q;
            if t < prev.len() {
                assert(prev[t]@ == q);
            }
        }
        if q == s@ {
            assert(out@[prev.len() as int]@ == q);
        } else if lists(prev, q) {
            let t = choose|t: int| 0 <= t < prev.len() && (#[trigger] prev[t])@ == q;
            assert(out@[t]@ == q);
        }
    }
}

/// Adds the relative form of `p`, if it lies below `root`, to `out`.
fn note_path(out: &mut Vec<String>, root: &str, p: &String)
    requires
        distinct(old(out)@),
    ensures
        distinct(final(out)@),
        forall|q: Seq<char>|
            #[trigger] lists(final(out)@, q) <==> (relative(
                root@,
                p@,
            ) == Some(q) || lists(old(out)@, q)),
{
    match relative_path(root, p.as_str()) {
        Some(s) => push_unique(out, s),
        None => {},
    }
}

/// The paths, relative to `root`, whose cache entries a batch of events
/// invalidates, each once: both ends of a rename, and the path of every write,
/// creation and removal; paths outside `root` and other events are ignored.
pub fn changed_paths(root: &str, events: &Vec<FsEvent>) -> (r: Vec<String>)
    ensures
        distinct(r@),
        forall|q: Seq<char>|
            #[trigger] lists(r@, q) <==> is_changed(root@, events@, q),
{
    let mut out: Vec<String> = Vec::new();
    let mut i: usize = 0;
    while i < events.len()
        invariant
            i <= events@.len(),
            distinct(out@),
            forall|q: Seq<char>|
                #[trigger] lists(out@, q) <==> is_changed(
                    root@,
                    events@.subrange(0, i as int),
                    q,
                ),
        decreases events@.len() - i,
    {
        let ghost prev = out@;
        match &events[i] {
            FsEvent::Write(p) => note_path(&mut out, root, p),
            FsEvent::Create(p) => note_path(&mut out, root, p),
            FsEvent::Remove(p) => note_path(&mut out, root, p),
            FsEvent::Rename(a, b) => {
                note_path(&mut out, root, a);
                let ghost mid = out@;
                note_path(&mut out, root, b);
                proof {
                    assert forall|q: Seq<char>| #[trigger] lists(out@, q) == (lists(prev, q) || from_event(
                        root@,
                        events@[i as int],
                        q,
                    )) by {
                        assert(lists(mid, q) == (relative(root@, a@) == Some(q) || lists(prev, q)));
                        assert(event_paths(events@[i as int])[0] == a@);
                        assert(event_paths(events@[i as int])[1] == b@);
                    }
                }
            },
            FsEvent::Other => {},
        }
        proof {
            assert forall|q: Seq<char>| #[trigger] lists(out@, q) == (lists(prev, q) || from_event(
                root@,
                events@[i as int],
                q,
            )) by {
                match events@[i as int] {
                    FsEvent::Rename(a, b) => {},
                    FsEvent::Other => {},
                    FsEvent::Write(p) => {
                        assert(event_paths(events@[i as int])[0] == p@);
                    },
                    FsEvent::Create(p) => {
                        assert(event_paths(events@[i as int])[0] == p@);
                    },
                    FsEvent::Remove(p) => {
                        assert(event_paths(events@[i as int])[0] == p@);
                    },
                }
            }
        }
        proof {
            let pre = events@.subrange(0, i as int);
            let post = events@.subrange(0, i + 1);
            let e = events@[i as int];
            assert forall|q: Seq<char>| is_changed(root@, post, q) == (is_changed(root@, pre, q) || from_event(root@, e, q)) by {
                if is_changed(root@, post, q) {
                    let (a, j) = choose|a: int, j: int|
                        0 <= a < post.len() && 0 <= j < event_paths(post[a]).len() && relative(
                            root@,
                            #[trigger] event_paths(post[a])[j],
                        ) == Some(q);
                    if a < i {
                        assert(pre[a] == post[a]);
                    }
                }
                if is_changed(root@, pre, q) {
                    let (a, j) = choose|a: int, j: int|
                        0 <= a < pre.len() && 0 <= j < event_paths(pre[a]).len() && relative(
                            root@,
                            #[trigger] event_paths(pre[a])[j],
                        ) == Some(q);
                    assert(post[a] == pre[a]);
                }
                if from_event(root@, e, q) {
                    let j = choose|j: int| 0 <= j < event_paths(e).len() && relative(root@, #[trigger] event_paths(e)[j]) == Some(q);
                    assert(post[i as int] == e);
                }
            }
        }
        i = i + 1;
    }
    assert(events@.subrange(0, events@.len() as int) =~= events@);
    out
}

/// `k` is the key of a path that one of `events` changed below `root`.
pub open spec fn invalidated(root: Seq<char>, events: Seq<FsEvent>, k: CacheKey) -> bool {
    exists|q: Seq<char>| #[trigger] is_changed(root, events, q) && lower_of(q) == k.0
}

/// Applies a batch of events under `root` to `cache`: every entry of a path
/// that the batch changed goes, whatever its type; the rest stay as they were.
pub fn apply_changes<V>(cache: &mut FsCache<V>, root: &str, events: &Vec<FsEvent>)
    requires
        old(cache).wf(),
    ensures
        final(cache).wf(),
        forall|k: CacheKey| #[trigger]
            final(cache)@.contains_key(k) <==> old(cache)@.contains_key(k) && !invalidated(root@, events@, k),
        forall|k: CacheKey| #[trigger] final(cache)@.contains_key(k) ==> final(cache)@[k] == old(cache)@[k],
{
    let paths = changed_paths(root, events);
    cache.remove_path_changes(&paths);
    proof {
        let ps = lowered(paths@);
        assert forall|k: CacheKey| ps.contains(k.0) == invalidated(root@, events@, k) by {
            if ps.contains(k.0) {
                let t = choose|t: int| 0 <= t < ps.len() && ps[t] == k.0;
                assert(lists(paths@, paths@[t]@));
                assert(is_changed(root@, events@, paths@[t]@));
            }
            if invalidated(root@, events@, k) {
                let q = choose|q: Seq<char>| #[trigger] is_changed(root@, events@, q) && lower_of(q) == k.0;
                assert(lists(paths@, q));
                let t = choose|t: int| 0 <= t < paths@.len() && (#[trigger] paths@[t])@ == q;
                assert(ps[t] == k.0);
            }
        }
    }
}

} // verus!
