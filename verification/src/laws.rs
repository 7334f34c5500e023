//! Properties of the engine as a whole, stated and proved over the
//! functional specifications of its operations.

use vstd::prelude::*;

use crate::blob::blob_hash_of;
use crate::blob::blob_store_content;
use crate::blob::with_object;
use crate::branch::branch_ref_path;
use crate::branch::lemma_ref_content_lines;
use crate::branch::ref_content;
use crate::commit::is_ancestor;
use crate::commit::resolve_commit;
use crate::file::object_content;
use crate::file::object_readable;
use crate::index::index_entries_of;
use crate::index::index_file_rep;
use crate::index::lemma_index_entries_plain;
use crate::index::lemma_index_rep_tokens;
use crate::index::lemma_index_round_trip;
use crate::index::lemma_insert_entry_plain;
use crate::index::lemma_pairs_tokens_len;
use crate::index::plain_word;
use crate::pathmap::extend_entries;
use crate::pathmap::insert_entry;
use crate::pathmap::keys_unique;
use crate::pathmap::map_of;
use crate::paths::index_path;
use crate::paths::object_path;
use crate::paths::wf_path;
use crate::paths::yit_root;
use crate::repo::RepoError;
use crate::repo::add_spec;
use crate::repo::merge_spec;
use crate::repo::with_index_file;
use crate::text::lines_of;
use crate::text::tokens_of;
use crate::tree::TreeV;
use crate::tree::expected_blob_map;
use crate::tree::flat_pairs;
use crate::tree::lemma_build_flat_map;
use crate::tree::lemma_object_path_prefixed;
use crate::tree::lemma_tree_of_entries_ok;
use crate::tree::lemma_tree_round_trip;
use crate::tree::lemma_wf_path_not_object;
use crate::tree::load_files;
use crate::tree::tree_hash_v;
use crate::tree::tree_height;
use crate::tree::tree_index_entries;
use crate::tree::tree_objects_intact;
use crate::tree::tree_of_entries;
use crate::tree::tree_paths_ok_v;
use crate::tree::tree_words_plain;

verus! {

/// Hashing is deterministic: the digest of a blob is a pure function of
/// its content, so equal contents always carry equal digests.
pub proof fn lemma_blob_hash_deterministic(a: Seq<u8>, b: Seq<u8>)
    requires
        a == b,
    ensures
        blob_hash_of(a) == blob_hash_of(b),
{
}

/// A branch ref round trip: pointing a branch at a commit and reading
/// the ref back yields that commit, for any digest free of newlines.
pub proof fn lemma_branch_ref_round_trip(
    f: Map<Seq<u8>, Seq<u8>>,
    branch_name: Seq<u8>,
    h: Seq<u8>,
)
    requires
        forall|j: int| 0 <= j < h.len() ==> h[j] != crate::text::nl(),
    ensures
        ({
            let f2 = f.insert(branch_ref_path(branch_name), ref_content(h));
            &&& f2.contains_key(branch_ref_path(branch_name))
            &&& lines_of(f2[branch_ref_path(branch_name)]).len() >= 2
            &&& lines_of(f2[branch_ref_path(branch_name)])[1] == h
        }),
{
    lemma_ref_content_lines(h);
}

/// A fast-forward merge: when the target branch's tip is already an
/// ancestor of the source branch's tip, merging moves the target's ref
/// to the source tip and changes nothing else — in particular it writes
/// no new commit object.
pub proof fn lemma_fast_forward_merge(
    f: Map<Seq<u8>, Seq<u8>>,
    branch: Seq<u8>,
    into_branch: Seq<u8>,
)
    requires
        f.contains_key(branch_ref_path(branch)),
        lines_of(f[branch_ref_path(branch)]).len() >= 2,
        f.contains_key(branch_ref_path(into_branch)),
        lines_of(f[branch_ref_path(into_branch)]).len() >= 2,
        is_ancestor(
            resolve_commit(f, lines_of(f[branch_ref_path(branch)])[1], f.dom().len()),
            lines_of(f[branch_ref_path(into_branch)])[1],
        ),
    ensures
        merge_spec(f, branch, into_branch) == Ok::<
            Map<Seq<u8>, Seq<u8>>,
            (RepoError, Map<Seq<u8>, Seq<u8>>),
        >(
            f.insert(
                branch_ref_path(into_branch),
                ref_content(lines_of(f[branch_ref_path(branch)])[1]),
            ),
        ),
{
}

/// A usable working path is neither the index file nor the marker.
proof fn lemma_wf_path_not_special(p: Seq<u8>)
    requires
        wf_path(p),
    ensures
        p != index_path(),
        p != yit_root(),
{
    if p == index_path() {
        assert(p.subrange(0, 4) =~= yit_root());
    }
    if p == yit_root() {
        assert(p.subrange(0, 4) =~= yit_root());
    }
}

/// Adding is idempotent: once a file is staged, adding it again while
/// its content is unchanged alters neither the index nor the object
/// store. The digest is trusted to be a plain word, which the rendered
/// form of every digest is.
pub proof fn lemma_add_idempotent(f0: Map<Seq<u8>, Seq<u8>>, path: Seq<u8>)
    requires
        wf_path(path),
        add_spec(f0, path) is Ok,
        with_index_file(f0).contains_key(path) ==> plain_word(
            blob_hash_of(with_index_file(f0)[path]),
        ),
    ensures
        add_spec(add_spec(f0, path)->Ok_0, path) == Ok::<
            Map<Seq<u8>, Seq<u8>>,
            (RepoError, Map<Seq<u8>, Seq<u8>>),
        >(add_spec(f0, path)->Ok_0),
{
    let f1 = with_index_file(f0);
    let content = f1[index_path()];
    let es = index_entries_of(content);
    let m = map_of(es);
    lemma_index_entries_plain(content);
    let tracked_unchanged = m.contains_key(path) && !(f1.contains_key(path) && m[path]
        != blob_hash_of(f1[path]));
    assert(f1.contains_key(index_path()));
    if tracked_unchanged {
        assert(add_spec(f0, path)->Ok_0 == f1);
        assert(with_index_file(f1) == f1);
    } else {
        let h = blob_hash_of(f1[path]);
        let es2 = insert_entry(es, path, h);
        let f2 = with_object(f1, h, blob_store_content(f1[path])).insert(
            index_path(),
            index_file_rep(es2),
        );
        assert(add_spec(f0, path)->Ok_0 == f2);
        assert(plain_word(path));
        assert(plain_word(h));
        lemma_insert_entry_plain(es, path, h);
        crate::pathmap::lemma_insert_entry_unique(es, path, h);
        lemma_index_round_trip(es2);
        lemma_index_rep_tokens(es2);
        lemma_pairs_tokens_len(es2);
        assert(f2.contains_key(index_path()));
        assert(with_index_file(f2) == f2);
        assert(f2[index_path()] == index_file_rep(es2));
        assert(tokens_of(index_file_rep(es2)).len() == 2 * es2.len());
        assert(index_entries_of(f2[index_path()]) == es2);
        let m2 = map_of(es2);
        assert(m2 == m.insert(path, h));
        assert(m2.contains_key(path) && m2[path] == h);
        lemma_object_path_prefixed(h);
        lemma_wf_path_not_object(path);
        assert(path != object_path(h));
        lemma_wf_path_not_special(path);
        assert(f2.contains_key(path) && f2[path] == f1[path]);
        assert(blob_hash_of(f2[path]) == h);
        assert(add_spec(f2, path) == Ok::<
            Map<Seq<u8>, Seq<u8>>,
            (RepoError, Map<Seq<u8>, Seq<u8>>),
        >(f2));
    }
}

/// Writing a working file leaves every stored object readable as before.
proof fn lemma_insert_wf_preserves_object(f: Map<Seq<u8>, Seq<u8>>, p: Seq<u8>, v: Seq<u8>, h: Seq<u8>)
    requires
        wf_path(p),
    ensures
        object_readable(f.insert(p, v), h) == object_readable(f, h),
        object_readable(f, h) ==> object_content(f.insert(p, v), h) == object_content(f, h),
{
    lemma_object_path_prefixed(h);
    lemma_wf_path_not_object(p);
}

/// Materialising entries does not touch paths outside their keys.
proof fn lemma_load_files_frame(f: Map<Seq<u8>, Seq<u8>>, es: Seq<(Seq<u8>, Seq<u8>)>, k: Seq<u8>)
    requires
        forall|j: int| 0 <= j < es.len() ==> (#[trigger] es[j]).0 != k,
    ensures
        load_files(f, es).contains_key(k) == f.contains_key(k),
        f.contains_key(k) ==> load_files(f, es)[k] == f[k],
    decreases es.len(),
{
    if es.len() > 0 {
        let f1 = if es[0].1.len() >= 2 && object_readable(f, es[0].1) {
            f.insert(es[0].0, object_content(f, es[0].1))
        } else {
            f
        };
        assert(forall|j: int|
            0 <= j < es.drop_first().len() ==> (#[trigger] es.drop_first()[j]).0 != k);
        lemma_load_files_frame(f1, es.drop_first(), k);
    }
}

/// Checkout materialisation: after a flat map of distinct working paths
/// is loaded, every path whose object is readable holds on disk exactly
/// the content of its stored blob.
pub proof fn lemma_checkout_materialises(f: Map<Seq<u8>, Seq<u8>>, es: Seq<(Seq<u8>, Seq<u8>)>)
    requires
        keys_unique(es),
        forall|j: int| 0 <= j < es.len() ==> wf_path((#[trigger] es[j]).0),
    ensures
        forall|j: int|
            0 <= j < es.len() && (#[trigger] es[j]).1.len() >= 2 && object_readable(f, es[j].1)
                ==> load_files(f, es).contains_key(es[j].0) && load_files(f, es)[es[j].0]
                == object_content(f, es[j].1),
    decreases es.len(),
{
    if es.len() > 0 {
        let k0 = es[0].0;
        let v0 = es[0].1;
        let loaded0 = v0.len() >= 2 && object_readable(f, v0);
        let f1 = if loaded0 {
            f.insert(k0, object_content(f, v0))
        } else {
            f
        };
        let tail = es.drop_first();
        assert(keys_unique(tail));
        assert(forall|j: int| 0 <= j < tail.len() ==> wf_path((#[trigger] tail[j]).0));
        lemma_checkout_materialises(f1, tail);
        assert(load_files(f, es) == load_files(f1, tail));
        if loaded0 {
            assert(forall|j: int| 0 <= j < tail.len() ==> (#[trigger] tail[j]).0 != k0) by {
                assert(forall|j: int| 0 <= j < tail.len() ==> tail[j] == es[j + 1]);
            }
            lemma_load_files_frame(f1, tail, k0);
            assert(load_files(f1, tail).contains_key(k0) && load_files(f1, tail)[k0]
                == object_content(f, v0));
        }
        assert forall|j: int|
            0 <= j < es.len() && (#[trigger] es[j]).1.len() >= 2 && object_readable(
                f,
                es[j].1,
            ) implies load_files(f, es).contains_key(es[j].0) && load_files(f, es)[es[j].0]
            == object_content(f, es[j].1) by {
            if j == 0 {
            } else {
                assert(tail[j - 1] == es[j]);
                if loaded0 {
                    lemma_insert_wf_preserves_object(f, k0, object_content(f, v0), es[j].1);
                }
                assert(object_readable(f1, es[j].1) && object_content(f1, es[j].1)
                    == object_content(f, es[j].1));
            }
        }
    }
}

/// The tree round trip, at the flattening entry point: once a tree has
/// been hashed and persisted, flattening its root digest recovers
/// exactly the path-to-digest pairs its content recorded. The store is
/// trusted to hold every persisted object intact, which hashing
/// guarantees as long as no two distinct subtrees collide in digest.
pub proof fn lemma_flatten_recovers_tree(
    t: TreeV,
    files: Map<Seq<u8>, Seq<u8>>,
    fstore: Map<Seq<u8>, Seq<u8>>,
)
    requires
        tree_paths_ok_v(t),
        tree_words_plain(t, files),
        tree_objects_intact(t, files, fstore),
        fstore.dom().len() >= tree_height(t),
    ensures
        tree_index_entries(fstore, tree_hash_v(t, files)) == extend_entries(
            Seq::empty(),
            flat_pairs(t, files),
        ),
{
    lemma_tree_round_trip(t, files, fstore, fstore.dom().len());
}

/// The full round trip: a flat path-to-content snapshot built into a
/// tree, hashed into the store, and flattened again yields each path
/// bound to its content's digest. The store is trusted to hold every
/// persisted object intact and every digest to render as a plain word —
/// the collision-freedom and hex form the digest is trusted for.
pub proof fn lemma_round_trip(
    es: Seq<(Seq<u8>, Seq<u8>)>,
    files: Map<Seq<u8>, Seq<u8>>,
    fstore: Map<Seq<u8>, Seq<u8>>,
)
    requires
        keys_unique(es),
        forall|i: int| 0 <= i < es.len() ==> wf_path((#[trigger] es[i]).0),
        tree_words_plain(tree_of_entries(es), files),
        tree_objects_intact(tree_of_entries(es), files, fstore),
        fstore.dom().len() >= tree_height(tree_of_entries(es)),
    ensures
        map_of(
            tree_index_entries(fstore, tree_hash_v(tree_of_entries(es), files)),
        ) == expected_blob_map(es, files),
{
    let t = tree_of_entries(es);
    lemma_tree_of_entries_ok(es);
    lemma_flatten_recovers_tree(t, files, fstore);
    crate::pathmap::lemma_extend_entries_unique(Seq::empty(), flat_pairs(t, files));
    assert(map_of(Seq::<(Seq<u8>, Seq<u8>)>::empty()) == Map::<Seq<u8>, Seq<u8>>::empty());
    assert(map_of(extend_entries(Seq::empty(), flat_pairs(t, files))) =~= map_of(
        flat_pairs(t, files),
    ));
    lemma_build_flat_map(es, files);
}

} // verus!
