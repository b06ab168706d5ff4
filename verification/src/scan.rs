//! Walking a directory snapshot into a catalog.
//!
//! The walker that touches the real filesystem lives outside this crate; it
//! hands in an [`FsSnapshot`]: one node per directory it saw, each listing
//! its file paths and the indices of its subdirectories. The recommended
//! walker policy is to record regular files only and not to follow symlinked
//! directories; but nothing here depends on that, because [`scan_dirs`] keeps
//! a visited set and so terminates, visiting each directory at most once,
//! even when the snapshot's edges form a cycle.

use crate::bytestr::clone_bytes;
use crate::catalog::{build_catalog, catalog_from, is_track, lemma_catalog_from_complete,
    lemma_catalog_from_no_dup, MusicCatalog};
use vstd::prelude::*;

verus! {

/// One directory of the snapshot: the files it directly contains (full
/// paths, as byte strings) and the snapshot indices of its subdirectories.
#[derive(Debug)]
pub struct DirNode {
    pub files: Vec<Vec<u8>>,
    pub subdirs: Vec<usize>,
}

/// A point-in-time image of a directory tree, as a graph over indices.
/// Cyclic edges are allowed: a cycle is what a followed symlink loop
/// produces, and the scan must survive it.
#[derive(Debug)]
pub struct FsSnapshot {
    pub dirs: Vec<DirNode>,
}

impl FsSnapshot {
    /// Every subdirectory edge stays inside the snapshot.
    pub open spec fn wf(&self) -> bool {
        forall|d: int, j: int|
            0 <= d < self.dirs@.len() && 0 <= j < self.dirs@[d].subdirs@.len() ==> (
            #[trigger] self.dirs@[d].subdirs@[j]) < self.dirs@.len()
    }
}

/// The file paths listed by directory `d` of the snapshot.
pub open spec fn dir_files(snap: FsSnapshot, d: usize) -> Seq<Seq<u8>> {
    snap.dirs@[d as int].files.deep_view()
}

/// The file paths of the visited directories `vis`, in visit order.
pub open spec fn files_of(snap: FsSnapshot, vis: Seq<usize>) -> Seq<Seq<u8>>
    decreases vis.len(),
{
    if vis.len() == 0 {
        Seq::empty()
    } else {
        files_of(snap, vis.drop_last()) + dir_files(snap, vis.last())
    }
}

/// What a finished walk from `root` looks like: `vis` names each visited
/// directory exactly once, the root is visited, and the set is closed under
/// subdirectory edges — so every directory reachable from the root is there.
pub open spec fn scan_cover(snap: FsSnapshot, root: usize, vis: Seq<usize>) -> bool {
    &&& vis.no_duplicates()
    &&& vis.contains(root)
    &&& forall|k: int| 0 <= k < vis.len() ==> (#[trigger] vis[k]) < snap.dirs@.len()
    &&& forall|k: int, j: int|
        0 <= k < vis.len() && 0 <= j < snap.dirs@[vis[k] as int].subdirs@.len() ==> vis.contains(
            #[trigger] snap.dirs@[vis[k] as int].subdirs@[j],
        )
}

/// How many entries of `s` are still false.
pub open spec fn count_false(s: Seq<bool>) -> nat
    decreases s.len(),
{
    if s.len() == 0 {
        0
    } else {
        (if s[0] {
            0nat
        } else {
            1nat
        }) + count_false(s.skip(1))
    }
}

proof fn lemma_count_false_update(s: Seq<bool>, i: int)
    requires
        0 <= i < s.len(),
        !s[i],
    ensures
        count_false(s.update(i, true)) + 1 == count_false(s),
    decreases s.len(),
{
    let su = s.update(i, true);
    if i == 0 {
        assert(su.skip(1) =~= s.skip(1));
    } else {
        lemma_count_false_update(s.skip(1), i - 1);
        assert(su.skip(1) =~= s.skip(1).update(i - 1, true));
        assert(su[0] == s[0]);
    }
}

proof fn lemma_push_contains(s: Seq<usize>, x: usize, y: usize)
    ensures
        s.push(x).contains(y) <==> (s.contains(y) || y == x),
{
    if s.push(x).contains(y) {
        let i = choose|i: int| 0 <= i < s.push(x).len() && s.push(x)[i] == y;
        if i < s.len() {
            assert(s[i] == y);
        }
    }
    if s.contains(y) {
        let i = choose|i: int| 0 <= i < s.len() && s[i] == y;
        assert(s.push(x)[i] == y);
    }
    assert(s.push(x)[s.len() as int] == x);
}

proof fn lemma_drop_last_contains(s: Seq<usize>, y: usize)
    requires
        s.len() > 0,
    ensures
        s.contains(y) <==> (s.drop_last().contains(y) || y == s.last()),
{
    if s.contains(y) {
        let i = choose|i: int| 0 <= i < s.len() && s[i] == y;
        if i < s.len() - 1 {
            assert(s.drop_last()[i] == y);
        }
    }
    if s.drop_last().contains(y) {
        let i = choose|i: int| 0 <= i < s.drop_last().len() && s.drop_last()[i] == y;
        assert(s[i] == y);
    }
    assert(s[s.len() - 1] == s.last());
}

/// Walk the snapshot from `root` and collect the file paths of every
/// reachable directory, each directory contributing exactly once.
///
/// The visited set makes the walk terminate on any well-formed snapshot,
/// cycles included; the witness `vis` in the postcondition records which
/// directories were covered, and its closure property says no reachable
/// directory was missed.
#[verifier::loop_isolation(false)]
pub fn scan_dirs(snap: &FsSnapshot, root: usize) -> (files: Vec<Vec<u8>>)
    requires
        snap.wf(),
        root < snap.dirs@.len(),
    ensures
        exists|vis: Seq<usize>|
            scan_cover(*snap, root, vis) && files.deep_view() == files_of(*snap, vis),
{
    let n = snap.dirs.len();
    let mut visited: Vec<bool> = Vec::new();
    let mut k: usize = 0;
    while k < n
        invariant
            k <= n,
            visited@.len() == k,
            forall|t: int| 0 <= t < k ==> !visited@[t],
        decreases n - k,
    {
        visited.push(false);
        k = k + 1;
    }
    let mut stack: Vec<usize> = Vec::new();
    let mut files: Vec<Vec<u8>> = Vec::new();
    let ghost mut order: Seq<usize> = Seq::empty();
    visited[root] = true;
    stack.push(root);
    proof {
        assert(stack@[0] == root);
        assert(stack@.contains(root));
        assert forall|x: int|
            0 <= x < n implies ((#[trigger] visited@[x]) <==> (order.contains(x as usize)
                || stack@.contains(x as usize))) by {
            if visited@[x] {
                assert(x == root);
            }
            if stack@.contains(x as usize) {
                let i = choose|i: int| 0 <= i < stack@.len() && stack@[i] == x as usize;
                assert(i == 0);
            }
        }
    }
    while stack.len() != 0
        invariant
            visited@.len() == n,
            forall|t: int| 0 <= t < order.len() ==> (#[trigger] order[t]) < n,
            forall|t: int| 0 <= t < stack@.len() ==> (#[trigger] stack@[t]) < n,
            order.no_duplicates(),
            stack@.no_duplicates(),
            forall|t: int, u: int|
                0 <= t < order.len() && 0 <= u < stack@.len() ==> order[t] != stack@[u],
            forall|x: int|
                0 <= x < n ==> ((#[trigger] visited@[x]) <==> (order.contains(x as usize)
                    || stack@.contains(x as usize))),
            order.contains(root) || stack@.contains(root),
            forall|t: int, j: int|
                0 <= t < order.len() && 0 <= j < snap.dirs@[order[t] as int].subdirs@.len()
                    ==> visited@[#[trigger] snap.dirs@[order[t] as int].subdirs@[j] as int],
            files.deep_view() == files_of(*snap, order),
        decreases count_false(visited@) + stack@.len(),
    {
        let ghost pre_visited: Seq<bool> = visited@;
        let ghost pre_stack: Seq<usize> = stack@;
        let ghost pre_order: Seq<usize> = order;
        let ghost pre_measure: int = count_false(visited@) + stack@.len() as int;
        let d = stack.pop().unwrap();
        proof {
            assert(pre_stack[pre_stack.len() - 1] == d);
            assert(pre_stack.contains(d));
            order = pre_order.push(d);
            // the popped directory moves from the stack to the visit order
            assert forall|y: usize| order.contains(y) || stack@.contains(y) implies
                pre_order.contains(y) || pre_stack.contains(y) by {
                lemma_push_contains(pre_order, d, y);
                lemma_drop_last_contains(pre_stack, y);
            }
            assert forall|y: usize| pre_order.contains(y) || pre_stack.contains(y) implies
                order.contains(y) || stack@.contains(y) by {
                lemma_push_contains(pre_order, d, y);
                lemma_drop_last_contains(pre_stack, y);
            }
            // the new order has no duplicates: d was on the stack, so not ordered
            assert(!pre_order.contains(d));
            assert forall|i: int, j: int|
                0 <= i < order.len() && 0 <= j < order.len() && i != j implies order[i]
                != order[j] by {
                if i < pre_order.len() && j < pre_order.len() {
                } else if i == pre_order.len() {
                    assert(pre_order.contains(order[j]));
                } else if j == pre_order.len() {
                    assert(pre_order.contains(order[i]));
                }
            }
            // order and stack stay disjoint: d left the stack, which has no duplicates
            assert forall|t: int, u: int|
                0 <= t < order.len() && 0 <= u < stack@.len() implies order[t] != stack@[u] by {
                assert(stack@[u] == pre_stack[u]);
                if t < pre_order.len() {
                } else {
                    assert(order[t] == d);
                }
            }
        }
        // collect the files this directory lists
        let ghost pre_files: Seq<Seq<u8>> = files.deep_view();
        let dir_file_count = snap.dirs[d].files.len();
        let mut j: usize = 0;
        while j < dir_file_count
            invariant
                j <= dir_file_count,
                dir_file_count == snap.dirs@[d as int].files@.len(),
                files.deep_view() == pre_files + dir_files(*snap, d).take(j as int),
            decreases dir_file_count - j,
        {
            let ghost before: Seq<Seq<u8>> = files.deep_view();
            files.push(clone_bytes(&snap.dirs[d].files[j]));
            proof {
                assert(files.deep_view() =~~= before.push(
                    snap.dirs@[d as int].files@[j as int].deep_view(),
                ));
                assert((pre_files + dir_files(*snap, d).take(j as int)).push(
                    dir_files(*snap, d)[j as int],
                ) =~= pre_files + dir_files(*snap, d).take(j as int + 1));
            }
            j = j + 1;
        }
        proof {
            assert(dir_files(*snap, d).take(dir_files(*snap, d).len() as int) =~= dir_files(
                *snap,
                d,
            ));
            assert(order.drop_last() =~= pre_order);
            assert(order.last() == d);
            assert(files.deep_view() == files_of(*snap, order));
        }
        // push the subdirectories not yet seen, marking them as seen
        let subdir_count = snap.dirs[d].subdirs.len();
        let mut t: usize = 0;
        while t < subdir_count
            invariant
                t <= subdir_count,
                subdir_count == snap.dirs@[d as int].subdirs@.len(),
                visited@.len() == n,
                forall|u: int| 0 <= u < stack@.len() ==> (#[trigger] stack@[u]) < n,
                stack@.no_duplicates(),
                forall|q: int, u: int|
                    0 <= q < order.len() && 0 <= u < stack@.len() ==> order[q] != stack@[u],
                forall|x: int|
                    0 <= x < n ==> ((#[trigger] visited@[x]) <==> (order.contains(x as usize)
                        || stack@.contains(x as usize))),
                forall|q: int, j2: int|
                    0 <= q < order.len() - 1 && 0 <= j2 < snap.dirs@[order[q] as int].subdirs@.len()
                        ==> visited@[#[trigger] snap.dirs@[order[q] as int].subdirs@[j2] as int],
                forall|j2: int|
                    0 <= j2 < t ==> visited@[#[trigger] snap.dirs@[d as int].subdirs@[j2] as int],
                order.contains(root) || stack@.contains(root),
                count_false(visited@) + stack@.len() == pre_measure - 1,
            decreases subdir_count - t,
        {
            let sub = snap.dirs[d].subdirs[t];
            if !visited[sub] {
                let ghost vis_before: Seq<bool> = visited@;
                let ghost stack_before: Seq<usize> = stack@;
                visited[sub] = true;
                stack.push(sub);
                proof {
                    lemma_count_false_update(vis_before, sub as int);
                    assert(!stack_before.contains(sub));
                    assert(!order.contains(sub));
                    assert forall|i: int, j2: int|
                        0 <= i < stack@.len() && 0 <= j2 < stack@.len() && i != j2 implies stack@[i]
                        != stack@[j2] by {
                        if i < stack_before.len() && j2 < stack_before.len() {
                        } else if i == stack_before.len() {
                            assert(stack_before.contains(stack@[j2]));
                        } else if j2 == stack_before.len() {
                            assert(stack_before.contains(stack@[i]));
                        }
                    }
                    assert forall|x: int|
                        0 <= x < n implies ((#[trigger] visited@[x]) <==> (order.contains(x as usize)
                            || stack@.contains(x as usize))) by {
                        lemma_push_contains(stack_before, sub, x as usize);
                    }
                    lemma_push_contains(stack_before, sub, root);
                }
            }
            t = t + 1;
        }
        proof {
            // the directory just processed now has all its subdirectories seen
            assert forall|q: int, j2: int|
                0 <= q < order.len() && 0 <= j2 < snap.dirs@[order[q] as int].subdirs@.len() implies
                visited@[#[trigger] snap.dirs@[order[q] as int].subdirs@[j2] as int] by {
                if q == order.len() - 1 {
                    assert(order[q] == d);
                }
            }
        }
    }
    proof {
        assert(scan_cover(*snap, root, order)) by {
            assert forall|x: int| 0 <= x < n && visited@[x] implies order.contains(x as usize) by {}
        }
    }
    files
}

/// Forced full rebuild: walk the snapshot from `root` and build the catalog
/// of its track files. Read-only with respect to the snapshot; the catalog
/// holds each matching path once, in discovery order.
pub fn refresh_from(snap: &FsSnapshot, root: usize) -> (cat: MusicCatalog)
    requires
        snap.wf(),
        root < snap.dirs@.len(),
    ensures
        cat.wf(),
        exists|vis: Seq<usize>|
            scan_cover(*snap, root, vis) && cat@ == catalog_from(files_of(*snap, vis)),
{
    let files = scan_dirs(snap, root);
    let ghost vis = choose|vis: Seq<usize>|
        scan_cover(*snap, root, vis) && files.deep_view() == files_of(*snap, vis);
    let cat = build_catalog(&files);
    proof {
        assert(scan_cover(*snap, root, vis) && cat@ == catalog_from(files_of(*snap, vis)));
    }
    cat
}

proof fn lemma_files_of_contains(snap: FsSnapshot, vis: Seq<usize>, p: Seq<u8>)
    ensures
        files_of(snap, vis).contains(p) <==> exists|k: int|
            0 <= k < vis.len() && dir_files(snap, #[trigger] vis[k]).contains(p),
    decreases vis.len(),
{
    if vis.len() == 0 {
    } else {
        lemma_files_of_contains(snap, vis.drop_last(), p);
        let front = files_of(snap, vis.drop_last());
        let lastf = dir_files(snap, vis.last());
        assert((front + lastf).contains(p) <==> (front.contains(p) || lastf.contains(p))) by {
            if (front + lastf).contains(p) {
                let i = choose|i: int| 0 <= i < (front + lastf).len() && (front + lastf)[i] == p;
                if i < front.len() {
                    assert(front[i] == p);
                } else {
                    assert(lastf[i - front.len()] == p);
                }
            }
            if front.contains(p) {
                let i = choose|i: int| 0 <= i < front.len() && front[i] == p;
                assert((front + lastf)[i] == p);
            }
            if lastf.contains(p) {
                let i = choose|i: int| 0 <= i < lastf.len() && lastf[i] == p;
                assert((front + lastf)[front.len() + i] == p);
            }
        }
        assert(files_of(snap, vis).contains(p) ==> exists|k: int|
            0 <= k < vis.len() && dir_files(snap, #[trigger] vis[k]).contains(p)) by {
            if front.contains(p) {
                let k = choose|k: int|
                    0 <= k < vis.drop_last().len() && dir_files(
                        snap,
                        #[trigger] vis.drop_last()[k],
                    ).contains(p);
                assert(vis[k] == vis.drop_last()[k]);
                assert(dir_files(snap, vis[k]).contains(p));
            }
            if lastf.contains(p) {
                assert(vis[vis.len() - 1] == vis.last());
                assert(dir_files(snap, vis[vis.len() - 1]).contains(p));
            }
        }
        assert((exists|k: int| 0 <= k < vis.len() && dir_files(snap, #[trigger] vis[k]).contains(p))
            ==> files_of(snap, vis).contains(p)) by {
            if exists|k: int| 0 <= k < vis.len() && dir_files(snap, #[trigger] vis[k]).contains(p) {
                let k = choose|k: int|
                    0 <= k < vis.len() && dir_files(snap, #[trigger] vis[k]).contains(p);
                if k < vis.len() - 1 {
                    assert(vis.drop_last()[k] == vis[k]);
                    assert(front.contains(p));
                } else {
                    assert(vis[k] == vis.last());
                    assert(lastf.contains(p));
                }
            }
        }
    }
}

/// Law: catalog completeness over a walk. The catalog built from the files
/// of the covered directories holds a path exactly when some covered
/// directory lists it and it meets the track criterion — and holds it at
/// most once, whatever order the walk produced and however cyclic the tree.
pub proof fn lemma_walk_catalog_complete(snap: FsSnapshot, vis: Seq<usize>, p: Seq<u8>)
    ensures
        catalog_from(files_of(snap, vis)).no_duplicates(),
        catalog_from(files_of(snap, vis)).contains(p) <==> (is_track(p) && exists|k: int|
            0 <= k < vis.len() && dir_files(snap, #[trigger] vis[k]).contains(p)),
{
    lemma_catalog_from_no_dup(files_of(snap, vis));
    lemma_catalog_from_complete(files_of(snap, vis), p);
    lemma_files_of_contains(snap, vis, p);
}

} // verus!
