//! The merge engine: a positional line-level three-way merge of blob
//! contents, and the reconciliation of three flattened trees.

use vstd::prelude::*;

use crate::file::cat_file;
use crate::file::object_content;
use crate::file::object_readable;
use crate::paths::wf_path;
use crate::pathmap::map_of;
use crate::pathmap::PathMap;
use crate::storage::Storage;
use crate::text::is_ws;
use crate::text::lines_of;
use crate::tree::add_blob_v;
use crate::tree::empty_tree_v;
use crate::tree::lemma_add_blob_ok;
use crate::tree::tree_hash_v;
use crate::tree::tree_paths_ok_v;
use crate::tree::tree_writes;
use crate::tree::writes_invertible;
use crate::tree::Tree;
use crate::tree::TreeV;

verus! {

/// Why a merge failed.
#[derive(Clone, Copy, PartialEq, Eq, Structural, Debug)]
pub enum MergeError {
    Conflict,
    DoesNotHaveOrigin,
    IOError,
}

/// The positional three-way rule, from line `i` of `theirs` on: a line
/// equal on both sides is kept; past `ours`, their line is kept; where
/// the sides differ, the edit wins only if `ours` still matches the
/// ancestor, else the merge conflicts (`None`). Each kept line gains a
/// trailing newline.
pub open spec fn merge_lines_from(
    parent: Seq<Seq<u8>>,
    ours: Seq<Seq<u8>>,
    theirs: Seq<Seq<u8>>,
    i: int,
) -> Option<Seq<u8>>
    decreases theirs.len() - i,
{
    if i < 0 || i >= theirs.len() {
        Some(seq![])
    } else if i < ours.len() && theirs[i] != ours[i] && (i >= parent.len() || ours[i]
        != parent[i]) {
        None
    } else {
        match merge_lines_from(parent, ours, theirs, i + 1) {
            None => None,
            Some(rest) => Some(theirs[i] + seq![10u8] + rest),
        }
    }
}

/// The three-way merge of three blob contents, by line position.
pub open spec fn merge_blobs_spec(parent: Seq<u8>, ours: Seq<u8>, theirs: Seq<u8>) -> Option<
    Seq<u8>,
> {
    merge_lines_from(lines_of(parent), lines_of(ours), lines_of(theirs), 0)
}

/// Reads the three blobs and merges their lines positionally.
pub fn merge_blobs(
    store: &Storage,
    hash_parent_blob: &[u8],
    hash_blob: &[u8],
    hash_into_blob: &[u8],
) -> (r: Result<Vec<u8>, MergeError>)
    requires
        hash_parent_blob@.len() >= 2,
        hash_blob@.len() >= 2,
        hash_into_blob@.len() >= 2,
    ensures
        ({
            let readable = object_readable(store@, hash_parent_blob@) && object_readable(
                store@,
                hash_blob@,
            ) && object_readable(store@, hash_into_blob@);
            let merged = merge_blobs_spec(
                object_content(store@, hash_parent_blob@),
                object_content(store@, hash_blob@),
                object_content(store@, hash_into_blob@),
            );
            match r {
                Ok(m) => readable && merged == Some(m@),
                Err(MergeError::Conflict) => readable && merged is None,
                Err(MergeError::IOError) => !readable,
                Err(MergeError::DoesNotHaveOrigin) => false,
            }
        }),
{
    let parent_blob = match cat_file(store, hash_parent_blob) {
        Err(_) => {
            return Err(MergeError::IOError);
        },
        Ok(c) => c,
    };
    let blob = match cat_file(store, hash_blob) {
        Err(_) => {
            return Err(MergeError::IOError);
        },
        Ok(c) => c,
    };
    let into_blob = match cat_file(store, hash_into_blob) {
        Err(_) => {
            return Err(MergeError::IOError);
        },
        Ok(c) => c,
    };
    let parent_lines = crate::text::split_lines(parent_blob.as_slice());
    let blob_lines = crate::text::split_lines(blob.as_slice());
    let into_lines = crate::text::split_lines(into_blob.as_slice());
    let ghost pl = lines_of(parent_blob@);
    let ghost ol = lines_of(blob@);
    let ghost tl = lines_of(into_blob@);
    proof {
        assert(parent_lines.deep_view() =~= pl);
        assert(blob_lines.deep_view() =~= ol);
        assert(into_lines.deep_view() =~= tl);
    }
    let mut out: Vec<u8> = Vec::new();
    let n = into_lines.len();
    let mut cnt: usize = 0;
    while cnt < n
        invariant
            0 <= cnt <= n,
            n == into_lines@.len(),
            pl == parent_lines.deep_view(),
            ol == blob_lines.deep_view(),
            tl == into_lines.deep_view(),
            tl.len() == n,
            pl.len() == parent_lines@.len(),
            ol.len() == blob_lines@.len(),
            object_readable(store@, hash_parent_blob@),
            object_readable(store@, hash_blob@),
            object_readable(store@, hash_into_blob@),
            pl == lines_of(object_content(store@, hash_parent_blob@)),
            ol == lines_of(object_content(store@, hash_blob@)),
            tl == lines_of(object_content(store@, hash_into_blob@)),
            ({
                match merge_lines_from(pl, ol, tl, cnt as int) {
                    None => merge_lines_from(pl, ol, tl, 0) is None,
                    Some(rest) => merge_lines_from(pl, ol, tl, 0) == Some(out@ + rest),
                }
            }),
        decreases n - cnt,
    {
        let line = &into_lines[cnt];
        proof {
            assert(line@ =~= tl[cnt as int]);
            if cnt < blob_lines@.len() {
                assert(ol[cnt as int] =~= blob_lines@[cnt as int]@);
            }
            if cnt < parent_lines@.len() {
                assert(pl[cnt as int] =~= parent_lines@[cnt as int]@);
            }
        }
        let keep: bool = if cnt >= blob_lines.len() {
            true
        } else if crate::storage::bytes_eq(line.as_slice(), blob_lines[cnt].as_slice()) {
            true
        } else if cnt >= parent_lines.len() {
            false
        } else if crate::storage::bytes_eq(
            blob_lines[cnt].as_slice(),
            parent_lines[cnt].as_slice(),
        ) {
            true
        } else {
            false
        };
        if !keep {
            proof {
                assert(merge_lines_from(pl, ol, tl, cnt as int) is None);
            }
            return Err(MergeError::Conflict);
        }
        let ghost out_pre = out@;
        crate::text::append_bytes(&mut out, line.as_slice());
        out.push(10);
        proof {
            assert(out@ =~= out_pre + (tl[cnt as int] + seq![10u8]));
            assert(out_pre + (tl[cnt as int] + seq![10u8]) + (match merge_lines_from(
                pl,
                ol,
                tl,
                cnt + 1,
            ) {
                Some(rest) => rest,
                None => Seq::empty(),
            }) =~= out_pre + (match merge_lines_from(pl, ol, tl, cnt as int) {
                Some(whole) => whole,
                None => tl[cnt as int] + seq![10u8],
            }));
        }
        cnt = cnt + 1;
    }
    proof {
        assert(merge_lines_from(pl, ol, tl, n as int) == Some(Seq::<u8>::empty()));
        assert(out@ + Seq::<u8>::empty() =~= out@);
    }
    Ok(out)
}

/// Whether some path was added on both sides since the ancestor: the
/// concurrent addition the merge refuses to reconcile.
pub open spec fn has_conflicting_add(
    es: Seq<(Seq<u8>, Seq<u8>)>,
    pmap: Map<Seq<u8>, Seq<u8>>,
    other: Map<Seq<u8>, Seq<u8>>,
) -> bool {
    exists|i: int|
        0 <= i < es.len() && !pmap.contains_key((#[trigger] es[i]).0) && other.contains_key(
            es[i].0,
        )
}

/// The tree after inserting, from position `i` on, every path of `es`
/// absent from the ancestor.
pub open spec fn add_new_keys(
    t: TreeV,
    pmap: Map<Seq<u8>, Seq<u8>>,
    es: Seq<(Seq<u8>, Seq<u8>)>,
    i: int,
) -> TreeV
    decreases es.len() - i,
{
    if i < 0 || i >= es.len() {
        t
    } else if pmap.contains_key(es[i].0) {
        add_new_keys(t, pmap, es, i + 1)
    } else {
        add_new_keys(add_blob_v(t, es[i].0, es[i].0), pmap, es, i + 1)
    }
}

/// The content-merge walk over the branch's entries from position `i`:
/// each path also present in the target has its three blobs merged, the
/// result written to the working file, and the path staged into the
/// tree. On failure the store reached so far is kept.
pub open spec fn merge_walk(
    pmap: Map<Seq<u8>, Seq<u8>>,
    imap: Map<Seq<u8>, Seq<u8>>,
    bes: Seq<(Seq<u8>, Seq<u8>)>,
    i: int,
    files: Map<Seq<u8>, Seq<u8>>,
    t: TreeV,
) -> Result<(Map<Seq<u8>, Seq<u8>>, TreeV), (MergeError, Map<Seq<u8>, Seq<u8>>)>
    decreases bes.len() - i,
{
    if i < 0 || i >= bes.len() {
        Ok((files, t))
    } else {
        let k = bes[i].0;
        if !imap.contains_key(k) {
            merge_walk(pmap, imap, bes, i + 1, files, t)
        } else {
            let hp = pmap[k];
            let hb = bes[i].1;
            let hi = imap[k];
            if hp.len() < 2 || hb.len() < 2 || hi.len() < 2 {
                Err((MergeError::IOError, files))
            } else if !(object_readable(files, hp) && object_readable(files, hb)
                && object_readable(files, hi)) {
                Err((MergeError::IOError, files))
            } else {
                match merge_blobs_spec(
                    object_content(files, hp),
                    object_content(files, hb),
                    object_content(files, hi),
                ) {
                    None => Err((MergeError::Conflict, files)),
                    Some(m) => merge_walk(
                        pmap,
                        imap,
                        bes,
                        i + 1,
                        files.insert(k, m),
                        add_blob_v(t, k, k),
                    ),
                }
            }
        }
    }
}

/// Whether every path in the entries is a usable working-tree path.
pub open spec fn entries_paths_wf(es: Seq<(Seq<u8>, Seq<u8>)>) -> bool {
    forall|i: int| 0 <= i < es.len() ==> wf_path((#[trigger] es[i]).0)
}

/// Whether a byte string is a usable working-tree path.
pub fn check_wf_path(p: &[u8]) -> (r: bool)
    ensures
        r == wf_path(p@),
{
    if p.len() == 0 {
        return false;
    }
    let mut i: usize = 0;
    while i < p.len()
        invariant
            0 <= i <= p@.len(),
            forall|j: int| 0 <= j < i ==> !is_ws(p@[j]),
        decreases p@.len() - i,
    {
        let b = p[i];
        if b == 32 || b == 10 || b == 9 || b == 13 {
            return false;
        }
        i = i + 1;
    }
    if p.len() >= 4 && p[0] == 46 && p[1] == 121 && p[2] == 105 && p[3] == 116 {
        proof {
            assert(p@.subrange(0, 4) =~= crate::paths::yit_root());
        }
        return false;
    }
    proof {
        if crate::paths::starts_with(p@, crate::paths::yit_root()) {
            assert(p@[0] == p@.subrange(0, 4)[0]);
            assert(p@[1] == p@.subrange(0, 4)[1]);
            assert(p@[2] == p@.subrange(0, 4)[2]);
            assert(p@[3] == p@.subrange(0, 4)[3]);
        }
    }
    true
}

/// Whether every path in the map is a usable working-tree path.
pub fn check_wf_entries_pub(map: &PathMap) -> (r: bool)
    ensures
        r == entries_paths_wf(map@),
{
    let n = map.len();
    let mut i: usize = 0;
    while i < n
        invariant
            0 <= i <= n,
            n == map@.len(),
            forall|j: int| 0 <= j < i ==> wf_path((#[trigger] map@[j]).0),
        decreases n - i,
    {
        if !check_wf_path(map.key_at(i).as_slice()) {
            return false;
        }
        i = i + 1;
    }
    true
}

/// Reconciles three flattened trees: a path added on one side since the
/// ancestor is taken over, one added on both sides aborts the merge, and
/// a path present on both sides has its contents merged line by line and
/// written to the working file. The resulting tree is hashed and
/// persisted, and its digest returned.
pub fn three_fold(
    store: &mut Storage,
    parent_index_map: &PathMap,
    branch_index_map: &PathMap,
    into_branch_index_map: &PathMap,
) -> (r: Result<Vec<u8>, MergeError>)
    ensures
        ({
            let pmap = map_of(parent_index_map@);
            let imap = map_of(into_branch_index_map@);
            let bmap = map_of(branch_index_map@);
            let wf = entries_paths_wf(branch_index_map@) && entries_paths_wf(
                into_branch_index_map@,
            );
            let clash = has_conflicting_add(branch_index_map@, pmap, imap)
                || has_conflicting_add(into_branch_index_map@, pmap, bmap);
            let t0 = add_new_keys(
                add_new_keys(empty_tree_v(seq![47u8]), pmap, branch_index_map@, 0),
                pmap,
                into_branch_index_map@,
                0,
            );
            let walk = merge_walk(pmap, imap, branch_index_map@, 0, old(store)@, t0);
            match r {
                Ok(h) => {
                    &&& wf
                    &&& !clash
                    &&& walk is Ok
                    &&& h@ == tree_hash_v(walk->Ok_0.1, walk->Ok_0.0)
                    &&& final(store)@ == walk->Ok_0.0.union_prefer_right(
                        tree_writes(walk->Ok_0.1, walk->Ok_0.0),
                    )
                    &&& writes_invertible(walk->Ok_0.1, walk->Ok_0.0)
                },
                Err(MergeError::DoesNotHaveOrigin) => {
                    &&& wf
                    &&& clash
                    &&& final(store)@ == old(store)@
                },
                Err(e) => {
                    &&& (!wf && e == MergeError::IOError && final(store)@ == old(store)@) || (wf
                        && !clash && walk is Err && walk->Err_0 == (e, final(store)@))
                },
            }
        }),
{
    let ghost pmap = map_of(parent_index_map@);
    let ghost imap = map_of(into_branch_index_map@);
    let ghost bmap = map_of(branch_index_map@);
    if !check_wf_entries_pub(branch_index_map) || !check_wf_entries_pub(into_branch_index_map) {
        return Err(MergeError::IOError);
    }
    let empty_map = PathMap::new();
    let mut tree = Tree::new(empty_map);
    proof {
        assert(crate::tree::tree_of_entries(Seq::<(Seq<u8>, Seq<u8>)>::empty()) == empty_tree_v(
            seq![47u8],
        ));
        crate::tree::lemma_tree_of_entries_ok(Seq::<(Seq<u8>, Seq<u8>)>::empty());
    }
    // paths added in the branch since the ancestor
    let nb = branch_index_map.len();
    let mut i: usize = 0;
    while i < nb
        invariant
            0 <= i <= nb,
            nb == branch_index_map@.len(),
            pmap == map_of(parent_index_map@),
            imap == map_of(into_branch_index_map@),
            entries_paths_wf(branch_index_map@),
            entries_paths_wf(into_branch_index_map@),
            tree_paths_ok_v(tree@),
            forall|j: int|
                0 <= j < i ==> !(!pmap.contains_key((#[trigger] branch_index_map@[j]).0)
                    && imap.contains_key(branch_index_map@[j].0)),
            add_new_keys(empty_tree_v(seq![47u8]), pmap, branch_index_map@, 0) == add_new_keys(
                tree@,
                pmap,
                branch_index_map@,
                i as int,
            ),
        decreases nb - i,
    {
        let key = branch_index_map.key_at(i);
        if !parent_index_map.contains_key(key.as_slice()) {
            if into_branch_index_map.contains_key(key.as_slice()) {
                proof {
                    assert(!pmap.contains_key((branch_index_map@[i as int]).0)
                        && imap.contains_key(branch_index_map@[i as int].0));
                    assert(has_conflicting_add(branch_index_map@, pmap, imap));
                }
                return Err(MergeError::DoesNotHaveOrigin);
            }
            let k1 = crate::text::copy_range(key.as_slice(), 0, key.len());
            let k2 = crate::text::copy_range(key.as_slice(), 0, key.len());
            proof {
                assert(k1@ =~= branch_index_map@[i as int].0);
                assert(k2@ =~= branch_index_map@[i as int].0);
                lemma_add_blob_ok(tree@, k1@, k2@);
            }
            tree.add_blob(k1, k2);
        }
        i = i + 1;
    }
    proof {
        assert(add_new_keys(tree@, pmap, branch_index_map@, nb as int) == tree@);
    }
    let ghost tree_a = tree@;
    // paths added in the target since the ancestor
    let ni = into_branch_index_map.len();
    let mut j: usize = 0;
    while j < ni
        invariant
            0 <= j <= ni,
            ni == into_branch_index_map@.len(),
            pmap == map_of(parent_index_map@),
            bmap == map_of(branch_index_map@),
            entries_paths_wf(branch_index_map@),
            entries_paths_wf(into_branch_index_map@),
            tree_paths_ok_v(tree@),
            forall|q: int|
                0 <= q < j ==> !(!pmap.contains_key((#[trigger] into_branch_index_map@[q]).0)
                    && bmap.contains_key(into_branch_index_map@[q].0)),
            add_new_keys(tree_a, pmap, into_branch_index_map@, 0) == add_new_keys(
                tree@,
                pmap,
                into_branch_index_map@,
                j as int,
            ),
        decreases ni - j,
    {
        let key = into_branch_index_map.key_at(j);
        if !parent_index_map.contains_key(key.as_slice()) {
            if branch_index_map.contains_key(key.as_slice()) {
                proof {
                    assert(!pmap.contains_key((into_branch_index_map@[j as int]).0)
                        && bmap.contains_key(into_branch_index_map@[j as int].0));
                    assert(has_conflicting_add(into_branch_index_map@, pmap, bmap));
                }
                return Err(MergeError::DoesNotHaveOrigin);
            }
            let k1 = crate::text::copy_range(key.as_slice(), 0, key.len());
            let k2 = crate::text::copy_range(key.as_slice(), 0, key.len());
            proof {
                assert(k1@ =~= into_branch_index_map@[j as int].0);
                assert(k2@ =~= into_branch_index_map@[j as int].0);
                lemma_add_blob_ok(tree@, k1@, k2@);
            }
            tree.add_blob(k1, k2);
        }
        j = j + 1;
    }
    proof {
        assert(add_new_keys(tree@, pmap, into_branch_index_map@, ni as int) == tree@);
        assert(tree_a == add_new_keys(empty_tree_v(seq![47u8]), pmap, branch_index_map@, 0));
        assert(tree@ == add_new_keys(tree_a, pmap, into_branch_index_map@, 0));
    }
    let ghost tree_b = tree@;
    // paths present on both sides: merge contents and restage
    let mut c: usize = 0;
    while c < nb
        invariant
            0 <= c <= nb,
            nb == branch_index_map@.len(),
            pmap == map_of(parent_index_map@),
            imap == map_of(into_branch_index_map@),
            entries_paths_wf(branch_index_map@),
            entries_paths_wf(into_branch_index_map@),
            tree_paths_ok_v(tree@),
            bmap == map_of(branch_index_map@),
            forall|q: int|
                0 <= q < nb ==> !(!pmap.contains_key((#[trigger] branch_index_map@[q]).0)
                    && imap.contains_key(branch_index_map@[q].0)),
            forall|q: int|
                0 <= q < into_branch_index_map@.len() ==> !(!pmap.contains_key(
                    (#[trigger] into_branch_index_map@[q]).0,
                ) && bmap.contains_key(into_branch_index_map@[q].0)),
            tree_b == add_new_keys(
                add_new_keys(empty_tree_v(seq![47u8]), pmap, branch_index_map@, 0),
                pmap,
                into_branch_index_map@,
                0,
            ),
            merge_walk(pmap, imap, branch_index_map@, 0, old(store)@, tree_b) == merge_walk(
                pmap,
                imap,
                branch_index_map@,
                c as int,
                store@,
                tree@,
            ),
        decreases nb - c,
    {
        let key = branch_index_map.key_at(c);
        if into_branch_index_map.contains_key(key.as_slice()) {
            let hash_into = match into_branch_index_map.get(key.as_slice()) {
                None => {
                    return Err(MergeError::IOError);
                },
                Some(h) => crate::text::copy_range(h.as_slice(), 0, h.len()),
            };
            let hash_branch = branch_index_map.val_at(c);
            let hash_parent = match parent_index_map.get(key.as_slice()) {
                None => {
                    return Err(MergeError::IOError);
                },
                Some(h) => crate::text::copy_range(h.as_slice(), 0, h.len()),
            };
            proof {
                assert(hash_parent@ =~= pmap[branch_index_map@[c as int].0]);
                assert(hash_into@ =~= imap[branch_index_map@[c as int].0]);
            }
            if hash_parent.len() < 2 || hash_branch.len() < 2 || hash_into.len() < 2 {
                proof {
                    let bes = branch_index_map@;
                    let k = bes[c as int].0;
                    assert(hash_branch@ == bes[c as int].1);
                    let w = merge_walk(pmap, imap, bes, c as int, store@, tree@);
                    assert(w is Err && w->Err_0 == (MergeError::IOError, store@));
                }
                return Err(MergeError::IOError);
            }
            let merged = match merge_blobs(
                store,
                hash_parent.as_slice(),
                hash_branch.as_slice(),
                hash_into.as_slice(),
            ) {
                Err(e) => {
                    proof {
                        let bes = branch_index_map@;
                        let k = bes[c as int].0;
                        assert(hash_branch@ == bes[c as int].1);
                        let w = merge_walk(pmap, imap, bes, c as int, store@, tree@);
                        assert(w is Err && w->Err_0 == (e, store@));
                    }
                    return Err(e);
                },
                Ok(m) => m,
            };
            let k1 = crate::text::copy_range(key.as_slice(), 0, key.len());
            let k2 = crate::text::copy_range(key.as_slice(), 0, key.len());
            let k3 = crate::text::copy_range(key.as_slice(), 0, key.len());
            proof {
                assert(k1@ =~= branch_index_map@[c as int].0);
                assert(k2@ =~= branch_index_map@[c as int].0);
                assert(k3@ =~= branch_index_map@[c as int].0);
                lemma_add_blob_ok(tree@, k2@, k3@);
            }
            let ghost files_pre = store@;
            let ghost tree_pre = tree@;
            store.set(k1, merged);
            tree.add_blob(k2, k3);
            proof {
                let bes = branch_index_map@;
                let k = bes[c as int].0;
                assert(hash_branch@ == bes[c as int].1);
                assert(store@ == files_pre.insert(k, merged@));
                assert(tree@ == add_blob_v(tree_pre, k, k));
                assert(merge_walk(pmap, imap, bes, c as int, files_pre, tree_pre) == merge_walk(
                    pmap,
                    imap,
                    bes,
                    c + 1,
                    store@,
                    tree@,
                ));
            }
        }
        c = c + 1;
    }
    let tree_hash = match tree.hash_tree(store, false) {
        Err(_) => {
            return Err(MergeError::IOError);
        },
        Ok(h) => h,
    };
    Ok(tree_hash)
}

} // verus!
