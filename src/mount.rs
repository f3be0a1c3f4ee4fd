//! Index of what is mounted at each absolute path.

use vstd::prelude::*;

use crate::metadata::BasicTypes;

verus! {

/// What is mounted at a path.
#[derive(Debug, Clone, Copy, PartialEq, Eq, Structural)]
pub enum MountingPoint {
    /// One or more configurations.
    Config,
    /// One or more parameters expecting `expecting`; `is_canonical` is set if the path is the
    /// first (canonical) path of one of them.
    Param { expecting: BasicTypes, is_canonical: bool },
}

pub type MountsView = Seq<(Seq<char>, MountingPoint)>;

pub open spec fn mounts_view(ms: Seq<(String, MountingPoint)>) -> MountsView {
    ms.map_values(|m: (String, MountingPoint)| (m.0@, m.1))
}

/// Index of the first entry at `path`, searching from `i`; the length if there is none.
pub open spec fn mount_index_from(ms: MountsView, path: Seq<char>, i: int) -> int
    decreases ms.len() - i,
{
    if i < 0 || i >= ms.len() {
        ms.len() as int
    } else if ms[i].0 == path {
        i
    } else {
        mount_index_from(ms, path, i + 1)
    }
}

pub open spec fn mount_index(ms: MountsView, path: Seq<char>) -> int {
    mount_index_from(ms, path, 0)
}

/// What is mounted at `path`.
pub open spec fn mount_at(ms: MountsView, path: Seq<char>) -> Option<MountingPoint> {
    let i = mount_index(ms, path);
    if 0 <= i < ms.len() {
        Some(ms[i].1)
    } else {
        None
    }
}

/// Mounts `m` at `path`, replacing what was mounted there.
pub open spec fn set_mount(ms: MountsView, path: Seq<char>, m: MountingPoint) -> MountsView {
    let i = mount_index(ms, path);
    if 0 <= i < ms.len() {
        ms.update(i, (path, m))
    } else {
        ms.push((path, m))
    }
}

pub proof fn lemma_mount_index_bounds(ms: MountsView, path: Seq<char>, i: int)
    requires
        0 <= i <= ms.len(),
    ensures
        i <= mount_index_from(ms, path, i) <= ms.len(),
        mount_index_from(ms, path, i) < ms.len() ==> ms[mount_index_from(ms, path, i)].0 == path,
    decreases ms.len() - i,
{
    if i < ms.len() && ms[i].0 != path {
        lemma_mount_index_bounds(ms, path, i + 1);
    }
}

/// Finds the index of the entry at `path` (the length if there is none).
pub fn find_mount(ms: &Vec<(String, MountingPoint)>, path: &str) -> (r: usize)
    ensures
        r == mount_index(mounts_view(ms@), path@),
        r <= ms@.len(),
{
    let ghost v = mounts_view(ms@);
    let mut i: usize = 0;
    while i < ms.len()
        invariant
            0 <= i <= ms@.len(),
            v == mounts_view(ms@),
            mount_index_from(v, path@, i as int) == mount_index(v, path@),
        decreases ms@.len() - i,
    {
        if string_eq(&ms[i].0, path) {
            return i;
        }
        i = i + 1;
    }
    i
}

/// Whether a string equals a string slice.
pub fn string_eq(a: &String, b: &str) -> (r: bool)
    ensures
        r == (a@ == b@),
{
    let n = a.as_str().unicode_len();
    if n != b.unicode_len() {
        proof {
            assert(a@.len() != b@.len());
        }
        return false;
    }
    let mut i: usize = 0;
    while i < n
        invariant
            0 <= i <= n,
            n == a@.len(),
            n == b@.len(),
            forall|k: int| 0 <= k < i ==> a@[k] == b@[k],
        decreases n - i,
    {
        if a.as_str().get_char(i) != b.get_char(i) {
            return false;
        }
        i = i + 1;
    }
    proof {
        assert(a@ =~= b@);
    }
    true
}

/// What is mounted at `path`.
pub fn get_mount(ms: &Vec<(String, MountingPoint)>, path: &str) -> (r: Option<MountingPoint>)
    ensures
        r == mount_at(mounts_view(ms@), path@),
{
    let i = find_mount(ms, path);
    if i < ms.len() {
        Some(ms[i].1)
    } else {
        None
    }
}

/// Mounts `m` at `path`, replacing what was mounted there.
pub fn put_mount(ms: &mut Vec<(String, MountingPoint)>, path: String, m: MountingPoint)
    ensures
        mounts_view(final(ms)@) == set_mount(mounts_view(old(ms)@), path@, m),
{
    let i = find_mount(ms, path.as_str());
    let ghost p = path@;
    if i < ms.len() {
        ms.set(i, (path, m));
        proof {
            assert(mounts_view(ms@) =~= set_mount(mounts_view(old(ms)@), p, m));
        }
    } else {
        ms.push((path, m));
        proof {
            assert(mounts_view(ms@) =~= set_mount(mounts_view(old(ms)@), p, m));
        }
    }
}


/// No two entries share a path.
pub open spec fn unique_keys(ms: MountsView) -> bool {
    forall|i: int, j: int| 0 <= i < j < ms.len() ==> ms[i].0 != ms[j].0
}

pub proof fn lemma_mount_index_absent(ms: MountsView, path: Seq<char>, i: int)
    requires
        0 <= i <= ms.len(),
        forall|k: int| i <= k < ms.len() ==> ms[k].0 != path,
    ensures
        mount_index_from(ms, path, i) == ms.len(),
    decreases ms.len() - i,
{
    if i < ms.len() {
        lemma_mount_index_absent(ms, path, i + 1);
    }
}

proof fn lemma_mount_index_at(ms: MountsView, path: Seq<char>, i: int, r: int)
    requires
        0 <= i <= r < ms.len(),
        ms[r].0 == path,
        forall|k: int| i <= k < r ==> ms[k].0 != path,
    ensures
        mount_index_from(ms, path, i) == r,
    decreases r - i,
{
    if i < r {
        lemma_mount_index_at(ms, path, i + 1, r);
    }
}

proof fn lemma_mount_index_found(ms: MountsView, path: Seq<char>, i: int)
    requires
        0 <= i <= ms.len(),
    ensures
        mount_index_from(ms, path, i) == ms.len() ==> forall|k: int| i <= k < ms.len() ==> ms[k].0 != path,
        mount_index_from(ms, path, i) < ms.len() ==> forall|k: int|
            i <= k < mount_index_from(ms, path, i) ==> ms[k].0 != path,
    decreases ms.len() - i,
{
    lemma_mount_index_bounds(ms, path, i);
    if i < ms.len() && ms[i].0 != path {
        lemma_mount_index_found(ms, path, i + 1);
    }
}

/// After mounting `m` at `a`, `a` holds `m` and every other path holds what it held.
pub proof fn lemma_set_mount_at(ms: MountsView, a: Seq<char>, m: MountingPoint, b: Seq<char>)
    ensures
        mount_at(set_mount(ms, a, m), b) == if a == b {
            Some(m)
        } else {
            mount_at(ms, b)
        },
{
    let i = mount_index(ms, a);
    let ns = set_mount(ms, a, m);
    lemma_mount_index_bounds(ms, a, 0);
    lemma_mount_index_found(ms, a, 0);
    lemma_mount_index_bounds(ms, b, 0);
    lemma_mount_index_found(ms, b, 0);
    if 0 <= i < ms.len() {
        if a == b {
            lemma_mount_index_at(ns, b, 0, i);
        } else {
            let jb = mount_index(ms, b);
            if jb < ms.len() {
                lemma_mount_index_at(ns, b, 0, jb);
            } else {
                lemma_mount_index_absent(ns, b, 0);
            }
        }
    } else {
        if a == b {
            lemma_mount_index_at(ns, b, 0, ms.len() as int);
        } else {
            let jb = mount_index(ms, b);
            if jb < ms.len() {
                lemma_mount_index_at(ns, b, 0, jb);
            } else {
                lemma_mount_index_absent(ns, b, 0);
            }
        }
    }
}

/// Mounting keeps paths unique.
pub proof fn lemma_set_mount_unique(ms: MountsView, a: Seq<char>, m: MountingPoint)
    requires
        unique_keys(ms),
    ensures
        unique_keys(set_mount(ms, a, m)),
{
    lemma_mount_index_bounds(ms, a, 0);
    lemma_mount_index_found(ms, a, 0);
}

} // verus!
