//! The tree model: a hierarchical namespace built from flat paths,
//! hashed bottom-up and persisted as one object per subtree.

use vstd::prelude::*;

use crate::blob::blob_hash_of;
use crate::blob::hash_file;
use crate::blob::Blob;
use crate::codec::deflate;
use crate::codec::deflate_of;
use crate::codec::inflate_of;
use crate::digest::sha1_hex;
use crate::digest::sha1_hex_of;
use crate::file::cat_file;
use crate::file::lemma_strip_tag;
use crate::index::plain_word;
use crate::file::object_content;
use crate::file::object_readable;
use crate::paths::blob_entry_prefix;
use crate::paths::blob_entry_prefix_vec;
use crate::paths::object_path;
use crate::paths::object_path_of;
use crate::paths::objects_prefix;
use crate::paths::starts_with;
use crate::paths::tree_entry_prefix;
use crate::paths::tree_entry_prefix_vec;
use crate::paths::tree_tag;
use crate::paths::tree_tag_vec;
use crate::paths::tree_word;
use crate::paths::tree_word_vec;
use crate::paths::wf_path;
use crate::pathmap::extend_entries;
use crate::pathmap::PathMap;
use crate::storage::Storage;
use crate::text::append_bytes;
use crate::text::first_byte;
use crate::text::lemma_first_byte;
use crate::text::lemma_first_byte_at;
use crate::text::lines_of;
use crate::text::sep;
use crate::text::words_of;

verus! {

/// Why a tree could not be hashed or persisted.
#[derive(Clone, Copy, PartialEq, Eq, Structural, Debug)]
pub enum TreeError {
    IOError,
    HashError,
}

/// A directory snapshot: named subtrees and references to working files.
pub struct Tree {
    pub subtrees: Vec<Tree>,
    pub blobs: Vec<Blob>,
    pub name: Vec<u8>,
}

/// The abstract value of a tree: its name, its blobs' working paths,
/// and its subtrees.
#[verifier::ext_equal]
pub ghost struct TreeV {
    pub name: Seq<u8>,
    pub blobs: Seq<Seq<u8>>,
    pub subtrees: Seq<TreeV>,
}

/// A tree with the given name and nothing in it.
pub open spec fn empty_tree_v(name: Seq<u8>) -> TreeV {
    TreeV { name, blobs: Seq::empty(), subtrees: Seq::empty() }
}

pub open spec fn tree_view(t: Tree) -> TreeV
    decreases t,
{
    TreeV {
        name: t.name@,
        blobs: Seq::new(t.blobs@.len(), |i: int| t.blobs@[i].file_path@),
        subtrees: Seq::new(
            t.subtrees@.len(),
            |i: int|
                if 0 <= i < t.subtrees@.len() {
                    tree_view(t.subtrees@[i])
                } else {
                    empty_tree_v(Seq::empty())
                },
        ),
    }
}

impl View for Tree {
    type V = TreeV;

    open spec fn view(&self) -> TreeV {
        tree_view(*self)
    }
}

/// The first path segment and the remainder (which keeps its leading
/// separator); a single leading separator is consumed first.
pub open spec fn get_word_spec(path: Seq<u8>) -> Option<(Seq<u8>, Seq<u8>)> {
    if path.len() == 0 {
        None
    } else {
        let s = if path[0] == sep() {
            path.drop_first()
        } else {
            path
        };
        let p = first_byte(s, sep());
        Some((s.subrange(0, p), s.subrange(p, s.len() as int)))
    }
}

impl Tree {
    /// Splits off the first path segment.
    fn get_word(path: &[u8]) -> (r: Option<(Vec<u8>, Vec<u8>)>)
        ensures
            match r {
                None => path@.len() == 0 && get_word_spec(path@) is None,
                Some(pair) => {
                    &&& get_word_spec(path@) == Some((pair.0@, pair.1@))
                    &&& pair.1@.len() < path@.len()
                },
            },
    {
        let n = path.len();
        if n == 0 {
            return None;
        }
        let start: usize = if path[0] == 47 {
            1
        } else {
            0
        };
        let ghost s = if path@[0] == sep() {
            path@.drop_first()
        } else {
            path@
        };
        proof {
            assert(s =~= path@.subrange(start as int, n as int));
        }
        let mut j: usize = start;
        while j < n && path[j] != 47
            invariant
                start <= j <= n,
                n == path@.len(),
                forall|k: int| start <= k < j ==> path@[k] != sep(),
            decreases n - j,
        {
            j = j + 1;
        }
        proof {
            assert(forall|k: int| 0 <= k < j - start ==> s[k] == path@[k + start]);
            lemma_first_byte_at(s, sep(), j - start);
        }
        let word = crate::text::copy_range(path, start, j);
        let rest = crate::text::copy_range(path, j, n);
        proof {
            assert(word@ =~= s.subrange(0, first_byte(s, sep())));
            assert(rest@ =~= s.subrange(first_byte(s, sep()), s.len() as int));
        }
        Some((word, rest))
    }
}

/// The position of the first subtree with the given name, or the count.
pub open spec fn first_subtree(ts: Seq<TreeV>, word: Seq<u8>) -> int
    decreases ts.len(),
{
    if ts.len() == 0 {
        0
    } else if ts[0].name == word {
        0
    } else {
        1 + first_subtree(ts.drop_first(), word)
    }
}

pub proof fn lemma_first_subtree(ts: Seq<TreeV>, word: Seq<u8>)
    ensures
        0 <= first_subtree(ts, word) <= ts.len(),
        first_subtree(ts, word) < ts.len() ==> ts[first_subtree(ts, word)].name == word,
        forall|j: int| 0 <= j < first_subtree(ts, word) ==> ts[j].name != word,
    decreases ts.len(),
{
    if ts.len() > 0 && ts[0].name != word {
        lemma_first_subtree(ts.drop_first(), word);
        assert(forall|j: int|
            0 < j < first_subtree(ts, word) ==> ts[j] == ts.drop_first()[j - 1]);
    }
}

pub proof fn lemma_first_subtree_at(ts: Seq<TreeV>, word: Seq<u8>, p: int)
    requires
        0 <= p <= ts.len(),
        p < ts.len() ==> ts[p].name == word,
        forall|j: int| 0 <= j < p ==> ts[j].name != word,
    ensures
        first_subtree(ts, word) == p,
    decreases ts.len(),
{
    if ts.len() > 0 && ts[0].name != word {
        assert(p > 0);
        lemma_first_subtree_at(ts.drop_first(), word, p - 1);
    }
}

/// What inserting a path does to a tree: walk the segments, reusing the
/// first matching subtree at each level or growing a fresh one, and
/// attach the blob at the leaf, always under the full filesystem path,
/// so that hashing later re-reads the file's content. When the leaf
/// segment names an existing subtree, the blob lands inside that
/// subtree, still under its full path.
pub open spec fn add_blob_v(t: TreeV, path: Seq<u8>, full: Seq<u8>) -> TreeV
    decreases path.len(),
{
    match get_word_spec(path) {
        None => t,
        Some(pair) => {
            let word = pair.0;
            let rest = pair.1;
            let idx = first_subtree(t.subtrees, word);
            if idx == t.subtrees.len() {
                if rest.len() == 0 {
                    TreeV { name: t.name, blobs: t.blobs.push(full), subtrees: t.subtrees }
                } else {
                    if rest.len() < path.len() {
                        let sub = add_blob_v(empty_tree_v(word), rest, full);
                        TreeV { name: t.name, blobs: t.blobs, subtrees: t.subtrees.push(sub) }
                    } else {
                        t
                    }
                }
            } else {
                let st = t.subtrees[idx];
                if rest.len() == 0 {
                    let st2 = TreeV {
                        name: st.name,
                        blobs: st.blobs.push(full),
                        subtrees: st.subtrees,
                    };
                    TreeV { name: t.name, blobs: t.blobs, subtrees: t.subtrees.update(idx, st2) }
                } else {
                    if rest.len() < path.len() {
                        let st2 = add_blob_v(st, rest, full);
                        TreeV {
                            name: t.name,
                            blobs: t.blobs,
                            subtrees: t.subtrees.update(idx, st2),
                        }
                    } else {
                        t
                    }
                }
            }
        },
    }
}

/// The tree grown from the entries' paths, inserted in order; each blob
/// is attached under its full path.
pub open spec fn tree_of_entries(es: Seq<(Seq<u8>, Seq<u8>)>) -> TreeV
    decreases es.len(),
{
    if es.len() == 0 {
        empty_tree_v(seq![47u8])
    } else {
        add_blob_v(tree_of_entries(es.drop_last()), es.last().0, es.last().0)
    }
}

impl Tree {
    /// The position of the first subtree named `word`, or the count.
    fn find_subtree(&self, word: &[u8]) -> (r: usize)
        ensures
            r as int == first_subtree(self@.subtrees, word@),
            r <= self@.subtrees.len(),
    {
        let n = self.subtrees.len();
        proof {
            assert(self@.subtrees.len() == n);
        }
        let mut i: usize = 0;
        while i < n
            invariant
                0 <= i <= n,
                n == self.subtrees.len(),
                self@.subtrees.len() == n,
                forall|k: int| 0 <= k < n ==> self@.subtrees[k] == tree_view(self.subtrees@[k]),
                forall|k: int| 0 <= k < i ==> self@.subtrees[k].name != word@,
            decreases n - i,
        {
            if crate::storage::bytes_eq(self.subtrees[i].name.as_slice(), word) {
                proof {
                    assert(self@.subtrees[i as int].name == word@);
                    lemma_first_subtree_at(self@.subtrees, word@, i as int);
                }
                return i;
            }
            i = i + 1;
        }
        proof {
            lemma_first_subtree_at(self@.subtrees, word@, n as int);
        }
        n
    }

    /// Inserts a working file into the tree, segment by segment.
    pub fn add_blob(&mut self, path: Vec<u8>, full_path: Vec<u8>)
        ensures
            final(self)@ == add_blob_v(old(self)@, path@, full_path@),
        decreases path@.len(),
    {
        let pair = match Tree::get_word(path.as_slice()) {
            None => {
                return ;
            },
            Some(p) => p,
        };
        let word = pair.0;
        let rest = pair.1;
        let ghost old_v = self@;
        let i = self.find_subtree(word.as_slice());
        let n = self.subtrees.len();
        proof {
            assert(old_v.subtrees.len() == n);
        }
        if i == n {
            if rest.len() == 0 {
                let blob = Blob::new(full_path);
                self.blobs.push(blob);
                proof {
                    assert(self@.name == old_v.name);
                    assert(self@.blobs =~= old_v.blobs.push(full_path@));
                    assert(self@.subtrees =~= old_v.subtrees);
                    assert(self@ =~~= add_blob_v(old_v, path@, full_path@));
                }
            } else {
                let mut subtree = Tree { subtrees: Vec::new(), blobs: Vec::new(), name: word };
                proof {
                    assert(subtree@.blobs =~= Seq::<Seq<u8>>::empty());
                    assert(subtree@.subtrees =~= Seq::<TreeV>::empty());
                    assert(subtree@ =~~= empty_tree_v(subtree.name@));
                }
                subtree.add_blob(rest, full_path);
                self.subtrees.push(subtree);
                proof {
                    assert(self@.name == old_v.name);
                    assert(self@.blobs =~= old_v.blobs);
                    assert(self@.subtrees =~= old_v.subtrees.push(
                        add_blob_v(empty_tree_v(word@), rest@, full_path@),
                    ));
                    assert(self@ =~~= add_blob_v(old_v, path@, full_path@));
                }
            }
        } else {
            let mut st = self.subtrees.remove(i);
            let ghost st_v = tree_view(st);
            proof {
                assert(st_v == old_v.subtrees[i as int]);
            }
            if rest.len() == 0 {
                let blob = Blob::new(full_path);
                st.blobs.push(blob);
                proof {
                    assert(st@.name == st_v.name);
                    assert(st@.blobs =~= st_v.blobs.push(full_path@));
                }
            } else {
                st.add_blob(rest, full_path);
            }
            let ghost st2 = tree_view(st);
            self.subtrees.insert(i, st);
            proof {
                assert(self.subtrees@ =~= old(self).subtrees@.update(i as int, st));
                assert(forall|k: int|
                    0 <= k < n && k != i ==> self.subtrees@[k] == old(self).subtrees@[k]);
                assert(self@.name == old_v.name);
                assert(self@.blobs =~= old_v.blobs);
                assert(self@.subtrees =~~= old_v.subtrees.update(i as int, st2));
                assert(self@ =~~= add_blob_v(old_v, path@, full_path@));
            }
        }
    }

    /// Builds the tree of every path in the map, in entry order.
    pub fn new(index_map: PathMap) -> (t: Tree)
        ensures
            t@ == tree_of_entries(index_map@),
    {
        Tree::index_map_to_tree(index_map)
    }

    fn index_map_to_tree(index_map: PathMap) -> (t: Tree)
        ensures
            t@ == tree_of_entries(index_map@),
    {
        let mut name: Vec<u8> = Vec::new();
        name.push(47);
        let mut tree = Tree { subtrees: Vec::new(), blobs: Vec::new(), name };
        proof {
            assert(tree.name@ =~= seq![47u8]);
            assert(tree@.blobs =~= Seq::<Seq<u8>>::empty());
            assert(tree@.subtrees =~= Seq::<TreeV>::empty());
            assert(tree@ =~~= empty_tree_v(seq![47u8]));
            assert(index_map@.take(0) =~= Seq::<(Seq<u8>, Seq<u8>)>::empty());
        }
        let n = index_map.len();
        let mut i: usize = 0;
        while i < n
            invariant
                0 <= i <= n,
                n == index_map@.len(),
                tree@ == tree_of_entries(index_map@.take(i as int)),
            decreases n - i,
        {
            let key = index_map.key_at(i);
            let k1 = crate::text::copy_range(key.as_slice(), 0, key.len());
            let k2 = crate::text::copy_range(key.as_slice(), 0, key.len());
            proof {
                assert(k1@ =~= index_map@[i as int].0);
                assert(k2@ =~= index_map@[i as int].0);
            }
            tree.add_blob(k1, k2);
            proof {
                let taken = index_map@.take(i + 1);
                assert(taken.drop_last() =~= index_map@.take(i as int));
                assert(taken.last() == index_map@[i as int]);
            }
            i = i + 1;
        }
        proof {
            assert(index_map@.take(n as int) =~= index_map@);
        }
        tree
    }
}

/// The unprefixed entry block of a tree: one line per subtree, then one
/// line per readable blob. A blob whose working file is missing is
/// skipped, the lenient policy.
pub open spec fn tree_entries_content(t: TreeV, files: Map<Seq<u8>, Seq<u8>>) -> Seq<u8>
    decreases t, 0int,
{
    subtree_lines(t.subtrees, files) + blob_lines(t.blobs, files)
}

/// The digest of a tree: its entry block hashed.
pub open spec fn tree_hash_v(t: TreeV, files: Map<Seq<u8>, Seq<u8>>) -> Seq<u8>
    decreases t, 1int,
{
    sha1_hex_of(tree_entries_content(t, files))
}

/// The subtree entry lines, in order.
pub open spec fn subtree_lines(ts: Seq<TreeV>, files: Map<Seq<u8>, Seq<u8>>) -> Seq<u8>
    decreases ts, 2int,
{
    if ts.len() == 0 {
        seq![]
    } else {
        subtree_lines(ts.drop_last(), files) + tree_entry_prefix() + ts.last().name + seq![32u8]
            + tree_hash_v(ts.last(), files) + seq![10u8]
    }
}

/// One blob entry line, or nothing if the working file is missing.
pub open spec fn blob_line(p: Seq<u8>, files: Map<Seq<u8>, Seq<u8>>) -> Seq<u8> {
    if files.contains_key(p) {
        blob_entry_prefix() + p + seq![32u8] + blob_hash_of(files[p]) + seq![10u8]
    } else {
        seq![]
    }
}

/// The blob entry lines, in order.
pub open spec fn blob_lines(bs: Seq<Seq<u8>>, files: Map<Seq<u8>, Seq<u8>>) -> Seq<u8>
    decreases bs.len(),
{
    if bs.len() == 0 {
        seq![]
    } else {
        blob_lines(bs.drop_last(), files) + blob_line(bs.last(), files)
    }
}

/// Whether every working file the tree references exists.
pub open spec fn tree_blobs_present(t: TreeV, files: Map<Seq<u8>, Seq<u8>>) -> bool
    decreases t,
{
    (forall|i: int| 0 <= i < t.blobs.len() ==> files.contains_key(#[trigger] t.blobs[i]))
        && (forall|i: int|
        0 <= i < t.subtrees.len() ==> tree_blobs_present(#[trigger] t.subtrees[i], files))
}

/// Whether every blob path in the tree is a usable working-tree path.
pub open spec fn tree_paths_ok_v(t: TreeV) -> bool
    decreases t,
{
    (forall|i: int| 0 <= i < t.blobs.len() ==> wf_path(#[trigger] t.blobs[i])) && (forall|i: int|
        0 <= i < t.subtrees.len() ==> tree_paths_ok_v(#[trigger] t.subtrees[i]))
}

/// The objects hashing the tree files into the store: one per subtree,
/// bottom-up and left to right, then the tree itself.
pub open spec fn tree_writes(t: TreeV, files: Map<Seq<u8>, Seq<u8>>) -> Map<Seq<u8>, Seq<u8>>
    decreases t, 2int,
{
    subtree_writes(t.subtrees, files).insert(
        object_path(tree_hash_v(t, files)),
        deflate_of(tree_tag() + tree_entries_content(t, files)),
    )
}

pub open spec fn subtree_writes(ts: Seq<TreeV>, files: Map<Seq<u8>, Seq<u8>>) -> Map<
    Seq<u8>,
    Seq<u8>,
>
    decreases ts, 3int,
{
    if ts.len() == 0 {
        Map::empty()
    } else {
        subtree_writes(ts.drop_last(), files).union_prefer_right(
            tree_writes(ts.last(), files),
        )
    }
}

/// Whether every object the tree writes decompresses back to its tagged
/// content; established by the writes themselves.
pub open spec fn writes_invertible(t: TreeV, files: Map<Seq<u8>, Seq<u8>>) -> bool
    decreases t, 3int,
{
    inflate_of(deflate_of(tree_tag() + tree_entries_content(t, files))) == Some(
        tree_tag() + tree_entries_content(t, files),
    ) && (forall|i: int|
        0 <= i < t.subtrees.len() ==> writes_invertible(#[trigger] t.subtrees[i], files))
}

/// Two stores that agree outside the object directory.
pub open spec fn agrees_outside_objects(f1: Map<Seq<u8>, Seq<u8>>, f2: Map<Seq<u8>, Seq<u8>>) -> bool {
    forall|k: Seq<u8>|
        #![trigger f1.contains_key(k)]
        #![trigger f2.contains_key(k)]
        !starts_with(k, objects_prefix()) ==> ((f1.contains_key(k) <==> f2.contains_key(k)) && (
        f1.contains_key(k) ==> f1[k] == f2[k]))
}

/// A usable working path never lies in the object directory.
pub proof fn lemma_wf_path_not_object(p: Seq<u8>)
    requires
        wf_path(p),
    ensures
        !starts_with(p, objects_prefix()),
{
    if starts_with(p, objects_prefix()) {
        assert(p.subrange(0, 4) =~= crate::paths::yit_root()) by {
            assert(forall|j: int| 0 <= j < 13 ==> p[j] == objects_prefix()[j]) by {
                assert(p.subrange(0, 13) == objects_prefix());
                assert(forall|j: int| 0 <= j < 13 ==> p.subrange(0, 13)[j] == p[j]);
            }
        }
    }
}

/// An object path lies in the object directory.
pub proof fn lemma_object_path_prefixed(h: Seq<u8>)
    ensures
        starts_with(object_path(h), objects_prefix()),
{
    assert(object_path(h).subrange(0, 13) =~= objects_prefix());
}

/// Inserting an object keeps a store agreeing with itself elsewhere.
pub proof fn lemma_agrees_insert_object(f: Map<Seq<u8>, Seq<u8>>, h: Seq<u8>, v: Seq<u8>)
    requires
        h.len() >= 2,
    ensures
        agrees_outside_objects(f, f.insert(object_path(h), v)),
{
    lemma_object_path_prefixed(h);
}

pub proof fn lemma_agrees_trans(
    f1: Map<Seq<u8>, Seq<u8>>,
    f2: Map<Seq<u8>, Seq<u8>>,
    f3: Map<Seq<u8>, Seq<u8>>,
)
    requires
        agrees_outside_objects(f1, f2),
        agrees_outside_objects(f2, f3),
    ensures
        agrees_outside_objects(f1, f3),
{
    assert forall|k: Seq<u8>| !starts_with(k, objects_prefix()) implies ((f1.contains_key(k)
        <==> f3.contains_key(k)) && (f1.contains_key(k) ==> f1[k] == f3[k])) by {
        assert(f1.contains_key(k) <==> f2.contains_key(k));
        assert(f2.contains_key(k) <==> f3.contains_key(k));
    }
}

proof fn lemma_blob_lines_frame(
    bs: Seq<Seq<u8>>,
    f1: Map<Seq<u8>, Seq<u8>>,
    f2: Map<Seq<u8>, Seq<u8>>,
)
    requires
        forall|i: int| 0 <= i < bs.len() ==> wf_path(#[trigger] bs[i]),
        agrees_outside_objects(f1, f2),
    ensures
        blob_lines(bs, f1) == blob_lines(bs, f2),
        forall|i: int|
            0 <= i < bs.len() ==> (f1.contains_key(#[trigger] bs[i]) <==> f2.contains_key(bs[i])),
    decreases bs.len(),
{
    if bs.len() > 0 {
        assert(forall|i: int| 0 <= i < bs.drop_last().len() ==> wf_path(#[trigger] bs.drop_last()[i]));
        lemma_blob_lines_frame(bs.drop_last(), f1, f2);
        lemma_wf_path_not_object(bs.last());
        assert forall|i: int| 0 <= i < bs.len() implies (f1.contains_key(#[trigger] bs[i])
            <==> f2.contains_key(bs[i])) by {
            if i < bs.len() - 1 {
                assert(bs.drop_last()[i] == bs[i]);
            }
        }
    }
}

/// The entry block, digest, writes and presence of a tree with usable
/// paths depend only on what the stores hold outside the object
/// directory.
pub proof fn lemma_tree_frame(t: TreeV, f1: Map<Seq<u8>, Seq<u8>>, f2: Map<Seq<u8>, Seq<u8>>)
    requires
        tree_paths_ok_v(t),
        agrees_outside_objects(f1, f2),
    ensures
        tree_entries_content(t, f1) == tree_entries_content(t, f2),
        tree_hash_v(t, f1) == tree_hash_v(t, f2),
        tree_writes(t, f1) == tree_writes(t, f2),
        tree_blobs_present(t, f1) == tree_blobs_present(t, f2),
        writes_invertible(t, f1) == writes_invertible(t, f2),
    decreases t, 1int,
{
    lemma_subtrees_frame(t.subtrees, f1, f2);
    lemma_blob_lines_frame(t.blobs, f1, f2);
    assert forall|i: int| 0 <= i < t.subtrees.len() implies (tree_blobs_present(
        #[trigger] t.subtrees[i],
        f1,
    ) == tree_blobs_present(t.subtrees[i], f2) && writes_invertible(t.subtrees[i], f1)
        == writes_invertible(t.subtrees[i], f2)) by {
        lemma_tree_frame(t.subtrees[i], f1, f2);
    }
}

proof fn lemma_subtrees_frame(ts: Seq<TreeV>, f1: Map<Seq<u8>, Seq<u8>>, f2: Map<Seq<u8>, Seq<u8>>)
    requires
        forall|i: int| 0 <= i < ts.len() ==> tree_paths_ok_v(#[trigger] ts[i]),
        agrees_outside_objects(f1, f2),
    ensures
        subtree_lines(ts, f1) == subtree_lines(ts, f2),
        subtree_writes(ts, f1) == subtree_writes(ts, f2),
    decreases ts, 0int,
{
    if ts.len() > 0 {
        assert(forall|i: int|
            0 <= i < ts.drop_last().len() ==> tree_paths_ok_v(#[trigger] ts.drop_last()[i]));
        lemma_subtrees_frame(ts.drop_last(), f1, f2);
        lemma_tree_frame(ts.last(), f1, f2);
    }
}

/// Writes a compressed, type-tagged tree object under the hash's derived
/// path.
pub fn write_tree(store: &mut Storage, hash: &[u8], content: &[u8]) -> (r: Result<(), TreeError>)
    requires
        hash@.len() >= 2,
    ensures
        r is Ok,
        final(store)@ == old(store)@.insert(
            object_path(hash@),
            deflate_of(tree_tag() + content@),
        ),
        inflate_of(deflate_of(tree_tag() + content@)) == Some(tree_tag() + content@),
{
    let mut tagged = tree_tag_vec();
    append_bytes(&mut tagged, content);
    let compressed = deflate(tagged.as_slice());
    let path = object_path_of(hash);
    store.set(path, compressed);
    Ok(())
}

impl Tree {
    /// Whether every working file the tree references exists.
    pub fn all_blobs_present(&self, store: &Storage) -> (r: bool)
        ensures
            r == tree_blobs_present(self@, store@),
        decreases *self,
    {
        let nb = self.blobs.len();
        let mut i: usize = 0;
        while i < nb
            invariant
                0 <= i <= nb,
                nb == self.blobs@.len(),
                self@.blobs.len() == nb,
                forall|k: int| 0 <= k < nb ==> self@.blobs[k] == self.blobs@[k].file_path@,
                forall|k: int| 0 <= k < i ==> store@.contains_key(#[trigger] self@.blobs[k]),
            decreases nb - i,
        {
            if !store.contains(self.blobs[i].file_path.as_slice()) {
                proof {
                    assert(!store@.contains_key(self@.blobs[i as int]));
                    assert(!tree_blobs_present(self@, store@));
                }
                return false;
            }
            i = i + 1;
        }
        let ns = self.subtrees.len();
        let mut j: usize = 0;
        while j < ns
            invariant
                0 <= j <= ns,
                ns == self.subtrees@.len(),
                self@.subtrees.len() == ns,
                forall|k: int| 0 <= k < ns ==> self@.subtrees[k] == tree_view(self.subtrees@[k]),
                self@.blobs.len() == self.blobs@.len(),
                forall|k: int| 0 <= k < self@.blobs.len() ==> store@.contains_key(
                    #[trigger] self@.blobs[k],
                ),
                forall|k: int| 0 <= k < j ==> tree_blobs_present(#[trigger] self@.subtrees[k], store@),
            decreases ns - j,
        {
            if !self.subtrees[j].all_blobs_present(store) {
                proof {
                    assert(!tree_blobs_present(self@.subtrees[j as int], store@));
                    assert(!tree_blobs_present(self@, store@));
                }
                return false;
            }
            j = j + 1;
        }
        true
    }

    /// Hashes the tree bottom-up, persisting one object per subtree, and
    /// returns the root digest. In strict mode a missing working file is
    /// an error; otherwise it is skipped.
    pub fn hash_tree(&self, store: &mut Storage, strict: bool) -> (r: Result<Vec<u8>, TreeError>)
        requires
            tree_paths_ok_v(self@),
        ensures
            match r {
                Ok(h) => {
                    &&& (strict ==> tree_blobs_present(self@, old(store)@))
                    &&& h@ == tree_hash_v(self@, old(store)@)
                    &&& h@.len() == 40
                    &&& final(store)@ == old(store)@.union_prefer_right(
                        tree_writes(self@, old(store)@),
                    )
                    &&& agrees_outside_objects(old(store)@, final(store)@)
                    &&& writes_invertible(self@, old(store)@)
                },
                Err(_) => {
                    &&& strict
                    &&& !tree_blobs_present(self@, old(store)@)
                    &&& final(store)@ == old(store)@
                },
            },
    {
        if strict {
            if !self.all_blobs_present(store) {
                return Err(TreeError::HashError);
            }
        }
        Ok(self.hash_tree_walk(store))
    }

    /// The lenient walk: subtrees first, then blobs, then this tree's own
    /// object.
    fn hash_tree_walk(&self, store: &mut Storage) -> (h: Vec<u8>)
        requires
            tree_paths_ok_v(self@),
        ensures
            h@ == tree_hash_v(self@, old(store)@),
            h@.len() == 40,
            final(store)@ == old(store)@.union_prefer_right(tree_writes(self@, old(store)@)),
            agrees_outside_objects(old(store)@, final(store)@),
            writes_invertible(self@, old(store)@),
        decreases *self,
    {
        let ghost f0 = store@;
        let mut content: Vec<u8> = Vec::new();
        let ns = self.subtrees.len();
        let mut i: usize = 0;
        proof {
            assert(self@.subtrees.take(0) =~= Seq::<TreeV>::empty());
            assert(store@ =~= f0.union_prefer_right(subtree_writes(self@.subtrees.take(0), f0)));
            assert(content@ =~= subtree_lines(self@.subtrees.take(0), f0));
        }
        while i < ns
            invariant
                0 <= i <= ns,
                ns == self.subtrees@.len(),
                self@.subtrees.len() == ns,
                tree_paths_ok_v(self@),
                forall|k: int| 0 <= k < ns ==> self@.subtrees[k] == tree_view(self.subtrees@[k]),
                f0 == old(store)@,
                content@ == subtree_lines(self@.subtrees.take(i as int), f0),
                store@ == f0.union_prefer_right(subtree_writes(self@.subtrees.take(i as int), f0)),
                agrees_outside_objects(f0, store@),
                forall|k: int| 0 <= k < i ==> writes_invertible(#[trigger] self@.subtrees[k], f0),
            decreases ns - i,
        {
            let ghost f_before = store@;
            let ghost sub_v = self@.subtrees[i as int];
            let h = self.subtrees[i].hash_tree_walk(store);
            proof {
                lemma_agrees_trans(f0, f_before, store@);
                lemma_tree_frame(sub_v, f_before, f0);
                assert(h@ == tree_hash_v(sub_v, f0));
                assert(writes_invertible(sub_v, f0));
                // fold this subtree's writes into the running union
                let tw = subtree_writes(self@.subtrees.take(i as int), f0);
                assert(store@ == f0.union_prefer_right(tw).union_prefer_right(
                    tree_writes(sub_v, f0),
                ));
                assert(self@.subtrees.take(i + 1).drop_last() =~= self@.subtrees.take(i as int));
                assert(self@.subtrees.take(i + 1).last() == sub_v);
                assert(subtree_writes(self@.subtrees.take(i + 1), f0) == tw.union_prefer_right(
                    tree_writes(sub_v, f0),
                ));
                assert(f0.union_prefer_right(tw).union_prefer_right(tree_writes(sub_v, f0))
                    =~= f0.union_prefer_right(
                    tw.union_prefer_right(tree_writes(sub_v, f0)),
                ));
            }
            let ghost content_before = content@;
            let prefix = tree_entry_prefix_vec();
            append_bytes(&mut content, prefix.as_slice());
            append_bytes(&mut content, self.subtrees[i].name.as_slice());
            content.push(32);
            append_bytes(&mut content, h.as_slice());
            content.push(10);
            proof {
                assert(self.subtrees@[i as int].name@ == sub_v.name);
                assert(content@ =~= content_before + tree_entry_prefix() + sub_v.name + seq![32u8]
                    + tree_hash_v(sub_v, f0) + seq![10u8]);
                assert(content@ =~= subtree_lines(self@.subtrees.take(i + 1), f0));
            }
            i = i + 1;
        }
        proof {
            assert(self@.subtrees.take(ns as int) =~= self@.subtrees);
        }
        let nb = self.blobs.len();
        let mut j: usize = 0;
        proof {
            assert(self@.blobs.take(0) =~= Seq::<Seq<u8>>::empty());
            assert(blob_lines(self@.blobs.take(0), f0) =~= Seq::<u8>::empty());
            assert(content@ =~= subtree_lines(self@.subtrees, f0) + blob_lines(
                self@.blobs.take(0),
                f0,
            ));
        }
        while j < nb
            invariant
                0 <= j <= nb,
                nb == self.blobs@.len(),
                self@.blobs.len() == nb,
                tree_paths_ok_v(self@),
                forall|k: int| 0 <= k < nb ==> self@.blobs[k] == self.blobs@[k].file_path@,
                f0 == old(store)@,
                content@ == subtree_lines(self@.subtrees, f0) + blob_lines(
                    self@.blobs.take(j as int),
                    f0,
                ),
                store@ == f0.union_prefer_right(subtree_writes(self@.subtrees, f0)),
                agrees_outside_objects(f0, store@),
                forall|k: int| 0 <= k < self@.subtrees.len() ==> writes_invertible(
                    #[trigger] self@.subtrees[k],
                    f0,
                ),
            decreases nb - j,
        {
            let ghost p = self@.blobs[j as int];
            proof {
                assert(wf_path(p));
                lemma_wf_path_not_object(p);
            }
            let ghost content_before = content@;
            match hash_file(store, self.blobs[j].file_path.as_slice()) {
                None => {
                    proof {
                        assert(!store@.contains_key(p));
                        assert(!f0.contains_key(p));
                        assert(blob_line(p, f0) =~= Seq::<u8>::empty());
                        assert(self@.blobs.take(j + 1).drop_last() =~= self@.blobs.take(j as int));
                        assert(self@.blobs.take(j + 1).last() == p);
                        assert(content@ =~= subtree_lines(self@.subtrees, f0) + blob_lines(
                            self@.blobs.take(j + 1),
                            f0,
                        ));
                    }
                },
                Some(h) => {
                    proof {
                        assert(store@.contains_key(p));
                        assert(f0.contains_key(p));
                        assert(store@[p] == f0[p]);
                        assert(h@ == blob_hash_of(f0[p]));
                    }
                    let prefix = blob_entry_prefix_vec();
                    append_bytes(&mut content, prefix.as_slice());
                    append_bytes(&mut content, self.blobs[j].file_path.as_slice());
                    content.push(32);
                    append_bytes(&mut content, h.as_slice());
                    content.push(10);
                    proof {
                        assert(content@ =~= content_before + blob_line(p, f0));
                        assert(self@.blobs.take(j + 1).drop_last() =~= self@.blobs.take(j as int));
                        assert(self@.blobs.take(j + 1).last() == p);
                        assert(content@ =~= subtree_lines(self@.subtrees, f0) + blob_lines(
                            self@.blobs.take(j + 1),
                            f0,
                        ));
                    }
                },
            }
            j = j + 1;
        }
        proof {
            assert(self@.blobs.take(nb as int) =~= self@.blobs);
            assert(content@ == tree_entries_content(self@, f0));
        }
        let h = sha1_hex(content.as_slice());
        let ghost f_pre_write = store@;
        match write_tree(store, h.as_slice(), content.as_slice()) {
            Ok(()) => {},
            Err(_) => {},
        }
        proof {
            assert(h@ == tree_hash_v(self@, f0));
            assert(store@ == f_pre_write.insert(
                object_path(tree_hash_v(self@, f0)),
                deflate_of(tree_tag() + tree_entries_content(self@, f0)),
            ));
            assert(store@ =~= f0.union_prefer_right(tree_writes(self@, f0)));
            lemma_agrees_insert_object(f_pre_write, h@, deflate_of(tree_tag() + content@));
            lemma_agrees_trans(f0, f_pre_write, store@);
        }
        h
    }
}

/// The raw (path, hash) pairs a stored tree object flattens to, in the
/// order they are encountered: subtree expansions in place, blob entries
/// directly. `fuel` bounds the recursion into subtree objects.
pub open spec fn tree_item_list(files: Map<Seq<u8>, Seq<u8>>, hash: Seq<u8>, fuel: nat) -> Seq<
    (Seq<u8>, Seq<u8>),
>
    decreases fuel, 0int, 0int,
{
    if fuel == 0 {
        seq![]
    } else if hash.len() < 2 || !object_readable(files, hash) {
        seq![]
    } else {
        tree_lines_list(files, lines_of(object_content(files, hash)), 0, (fuel - 1) as nat)
    }
}

/// The pairs contributed by the lines from position `i` on; an empty
/// line ends the walk, and a line of fewer than three words is skipped.
pub open spec fn tree_lines_list(
    files: Map<Seq<u8>, Seq<u8>>,
    ls: Seq<Seq<u8>>,
    i: int,
    fuel: nat,
) -> Seq<(Seq<u8>, Seq<u8>)>
    decreases fuel, 1int, ls.len() - i,
{
    if i < 0 || i >= ls.len() {
        seq![]
    } else if ls[i].len() == 0 {
        seq![]
    } else {
        let ws = words_of(ls[i]);
        if ws.len() < 3 {
            tree_lines_list(files, ls, i + 1, fuel)
        } else if ws[0] == tree_word() {
            tree_item_list(files, ws[2], fuel) + tree_lines_list(files, ls, i + 1, fuel)
        } else {
            seq![(ws[1], ws[2])] + tree_lines_list(files, ls, i + 1, fuel)
        }
    }
}

/// The map a stored tree flattens to, at the store's own size as fuel.
pub open spec fn tree_index_entries(files: Map<Seq<u8>, Seq<u8>>, hash: Seq<u8>) -> Seq<
    (Seq<u8>, Seq<u8>),
> {
    extend_entries(Seq::empty(), tree_item_list(files, hash, files.dom().len()))
}

/// What checking out a flat map does to the store: each entry's object
/// content written to its path, in order; unreadable objects are skipped.
pub open spec fn load_files(files: Map<Seq<u8>, Seq<u8>>, es: Seq<(Seq<u8>, Seq<u8>)>) -> Map<
    Seq<u8>,
    Seq<u8>,
>
    decreases es.len(),
{
    if es.len() == 0 {
        files
    } else {
        let f1 = if es[0].1.len() >= 2 && object_readable(files, es[0].1) {
            files.insert(es[0].0, object_content(files, es[0].1))
        } else {
            files
        };
        load_files(f1, es.drop_first())
    }
}

impl Tree {
    /// Reconstructs the flat path-to-hash map of a stored tree,
    /// recursing into subtree entries.
    pub fn tree_to_index_map(store: &Storage, hash: &[u8]) -> (r: PathMap)
        ensures
            r@ == tree_index_entries(store@, hash@),
    {
        let fuel = store.file_count();
        let mut map = PathMap::new();
        Tree::expand_tree(store, hash, fuel, &mut map);
        map
    }

    /// One bounded expansion step, inserting this object's pairs into the
    /// accumulating map.
    fn expand_tree(store: &Storage, hash: &[u8], fuel: usize, map: &mut PathMap)
        ensures
            final(map)@ == extend_entries(old(map)@, tree_item_list(store@, hash@, fuel as nat)),
        decreases fuel,
    {
        if fuel == 0 {
            proof {
                assert(tree_item_list(store@, hash@, 0nat) =~= Seq::<(Seq<u8>, Seq<u8>)>::empty());
                assert(extend_entries(old(map)@, tree_item_list(store@, hash@, fuel as nat))
                    == old(map)@);
            }
            return ;
        }
        if hash.len() < 2 {
            proof {
                assert(tree_item_list(store@, hash@, fuel as nat) =~= Seq::<
                    (Seq<u8>, Seq<u8>),
                >::empty());
                assert(extend_entries(old(map)@, tree_item_list(store@, hash@, fuel as nat))
                    == old(map)@);
            }
            return ;
        }
        let content = match cat_file(store, hash) {
            Err(_) => {
                proof {
                    assert(tree_item_list(store@, hash@, fuel as nat) =~= Seq::<
                        (Seq<u8>, Seq<u8>),
                    >::empty());
                    assert(extend_entries(old(map)@, tree_item_list(store@, hash@, fuel as nat))
                        == old(map)@);
                }
                return ;
            },
            Ok(c) => c,
        };
        let lines = crate::text::split_lines(content.as_slice());
        let n = lines.len();
        let ghost ls = lines_of(content@);
        let ghost subfuel = (fuel - 1) as nat;
        proof {
            assert(lines.deep_view() =~= ls);
            assert(ls.len() == n);
            assert(tree_item_list(store@, hash@, fuel as nat) == tree_lines_list(
                store@,
                ls,
                0,
                subfuel,
            ));
        }
        let mut i: usize = 0;
        while i < n
            invariant
                0 <= i <= n,
                n == lines@.len(),
                ls == lines.deep_view(),
                ls.len() == n,
                subfuel == (fuel - 1) as nat,
                fuel >= 1,
                tree_item_list(store@, hash@, fuel as nat) == tree_lines_list(store@, ls, 0, subfuel),
                extend_entries(old(map)@, tree_lines_list(store@, ls, 0, subfuel))
                    == extend_entries(map@, tree_lines_list(store@, ls, i as int, subfuel)),
            decreases n - i,
        {
            let line = &lines[i];
            proof {
                assert(line@ == ls[i as int]);
            }
            if line.len() == 0 {
                proof {
                    assert(tree_lines_list(store@, ls, i as int, subfuel) =~= Seq::<
                        (Seq<u8>, Seq<u8>),
                    >::empty());
                }
                return ;
            }
            let words = crate::text::split_on(line.as_slice(), 32);
            let ghost ws = words_of(ls[i as int]);
            proof {
                assert(words.deep_view() =~= ws);
                assert(ws.len() == words@.len());
                assert(forall|q: int| 0 <= q < ws.len() ==> ws[q] == words@[q]@);
            }
            if words.len() < 3 {
                proof {
                    assert(tree_lines_list(store@, ls, i as int, subfuel) == tree_lines_list(
                        store@,
                        ls,
                        i + 1,
                        subfuel,
                    ));
                }
                i = i + 1;
                continue ;
            }
            let word0 = &words[0];
            let tw = tree_word_vec();
            if crate::storage::bytes_eq(word0.as_slice(), tw.as_slice()) {
                let sub_hash = crate::text::copy_range(words[2].as_slice(), 0, words[2].len());
                proof {
                    assert(ws[0] == tree_word());
                    assert(sub_hash@ =~= ws[2]);
                }
                let ghost pre = map@;
                Tree::expand_tree(store, sub_hash.as_slice(), fuel - 1, map);
                proof {
                    crate::pathmap::lemma_extend_entries_concat(
                        pre,
                        tree_item_list(store@, ws[2], subfuel),
                        tree_lines_list(store@, ls, i + 1, subfuel),
                    );
                    assert(tree_lines_list(store@, ls, i as int, subfuel) == tree_item_list(
                        store@,
                        ws[2],
                        subfuel,
                    ) + tree_lines_list(store@, ls, i + 1, subfuel));
                }
                i = i + 1;
            } else {
                let k = crate::text::copy_range(words[1].as_slice(), 0, words[1].len());
                let v = crate::text::copy_range(words[2].as_slice(), 0, words[2].len());
                proof {
                    assert(ws[0] != tree_word());
                    assert(k@ =~= ws[1]);
                    assert(v@ =~= ws[2]);
                }
                let ghost pre = map@;
                map.insert(k, v);
                proof {
                    crate::pathmap::lemma_extend_entries_one(pre, ws[1], ws[2]);
                    crate::pathmap::lemma_extend_entries_concat(
                        pre,
                        seq![(ws[1], ws[2])],
                        tree_lines_list(store@, ls, i + 1, subfuel),
                    );
                    assert(tree_lines_list(store@, ls, i as int, subfuel) == seq![(ws[1], ws[2])]
                        + tree_lines_list(store@, ls, i + 1, subfuel));
                }
                i = i + 1;
            }
        }
        proof {
            assert(tree_lines_list(store@, ls, n as int, subfuel) =~= Seq::<
                (Seq<u8>, Seq<u8>),
            >::empty());
        }
    }

    /// Materialises a flat map into the working tree: writes each entry's
    /// object content to its path, skipping unreadable objects.
    pub fn load_index_map(store: &mut Storage, map: &PathMap)
        ensures
            final(store)@ == load_files(old(store)@, map@),
    {
        let n = map.len();
        let mut i: usize = 0;
        proof {
            assert(map@.skip(0) =~= map@);
        }
        while i < n
            invariant
                0 <= i <= n,
                n == map@.len(),
                load_files(old(store)@, map@) == load_files(store@, map@.skip(i as int)),
            decreases n - i,
        {
            let ghost suffix = map@.skip(i as int);
            proof {
                assert(suffix[0] == map@[i as int]);
                assert(suffix.drop_first() =~= map@.skip(i + 1));
            }
            let val = map.val_at(i);
            if val.len() >= 2 {
                match cat_file(store, val.as_slice()) {
                    Err(_) => {},
                    Ok(content) => {
                        let key = map.key_at(i);
                        let k = crate::text::copy_range(key.as_slice(), 0, key.len());
                        proof {
                            assert(k@ =~= map@[i as int].0);
                        }
                        store.set(k, content);
                    },
                }
            }
            i = i + 1;
        }
        proof {
            assert(map@.skip(n as int) =~= Seq::<(Seq<u8>, Seq<u8>)>::empty());
        }
    }
}

/// Inserting a usable path keeps every blob path in the tree usable; the
/// remainder handed to deeper levels keeps its leading separator, so it
/// stays usable too.
pub proof fn lemma_add_blob_ok(t: TreeV, path: Seq<u8>, full: Seq<u8>)
    requires
        tree_paths_ok_v(t),
        wf_path(full),
        wf_path(path),
    ensures
        tree_paths_ok_v(add_blob_v(t, path, full)),
    decreases path.len(),
{
    let pair = get_word_spec(path).unwrap();
    let word = pair.0;
    let rest = pair.1;
    let ghost s = if path[0] == sep() {
        path.drop_first()
    } else {
        path
    };
    lemma_first_byte(s, sep());
    assert(forall|j: int| 0 <= j < rest.len() ==> crate::text::is_ws(rest[j]) == false) by {
        assert(forall|j: int| 0 <= j < s.len() ==> !crate::text::is_ws(s[j]));
    }
    if rest.len() > 0 {
        assert(rest[0] == sep());
        assert(!starts_with(rest, crate::paths::yit_root()));
        assert(wf_path(rest));
    }
    let idx = first_subtree(t.subtrees, word);
    lemma_first_subtree(t.subtrees, word);
    let r = add_blob_v(t, path, full);
    if idx == t.subtrees.len() {
        if rest.len() == 0 {
            assert(forall|i: int| 0 <= i < r.blobs.len() ==> wf_path(#[trigger] r.blobs[i]));
        } else {
            lemma_add_blob_ok(empty_tree_v(word), rest, full);
            assert(forall|i: int|
                0 <= i < r.subtrees.len() ==> tree_paths_ok_v(#[trigger] r.subtrees[i]));
        }
    } else {
        if rest.len() == 0 {
            let st = t.subtrees[idx];
            let st2 = r.subtrees[idx];
            assert(tree_paths_ok_v(st));
            assert(st2.blobs == st.blobs.push(full));
            assert forall|i: int| 0 <= i < st2.blobs.len() implies wf_path(
                #[trigger] st2.blobs[i],
            ) by {
                if i < st2.blobs.len() - 1 {
                    assert(st2.blobs[i] == st.blobs[i]);
                }
            }
            assert(forall|i: int|
                0 <= i < st2.subtrees.len() ==> tree_paths_ok_v(#[trigger] st2.subtrees[i]));
            assert(tree_paths_ok_v(st2));
            assert forall|i: int| 0 <= i < r.subtrees.len() implies tree_paths_ok_v(
                #[trigger] r.subtrees[i],
            ) by {
                if i != idx {
                    assert(r.subtrees[i] == t.subtrees[i]);
                }
            }
        } else {
            lemma_add_blob_ok(t.subtrees[idx], rest, full);
            assert forall|i: int| 0 <= i < r.subtrees.len() implies tree_paths_ok_v(
                #[trigger] r.subtrees[i],
            ) by {
                if i != idx {
                    assert(r.subtrees[i] == t.subtrees[i]);
                }
            }
        }
    }
}

/// A tree grown from usable paths has only usable blob paths.
pub proof fn lemma_tree_of_entries_ok(es: Seq<(Seq<u8>, Seq<u8>)>)
    requires
        forall|i: int| 0 <= i < es.len() ==> wf_path(#[trigger] es[i].0),
    ensures
        tree_paths_ok_v(tree_of_entries(es)),
    decreases es.len(),
{
    if es.len() == 0 {
        let t = empty_tree_v(seq![47u8]);
        assert(tree_paths_ok_v(t));
    } else {
        assert(forall|i: int|
            0 <= i < es.drop_last().len() ==> wf_path(#[trigger] es.drop_last()[i].0));
        lemma_tree_of_entries_ok(es.drop_last());
        lemma_add_blob_ok(tree_of_entries(es.drop_last()), es.last().0, es.last().0);
    }
}

/// One subtree entry line, without its newline.
pub open spec fn subtree_line_words(t: TreeV, files: Map<Seq<u8>, Seq<u8>>) -> Seq<u8> {
    tree_entry_prefix() + t.name + seq![32u8] + tree_hash_v(t, files)
}

/// One blob entry line, without its newline.
pub open spec fn blob_line_words(p: Seq<u8>, files: Map<Seq<u8>, Seq<u8>>) -> Seq<u8> {
    blob_entry_prefix() + p + seq![32u8] + blob_hash_of(files[p])
}

/// The subtree entry lines, front to back.
pub open spec fn subtree_line_list(ts: Seq<TreeV>, files: Map<Seq<u8>, Seq<u8>>) -> Seq<Seq<u8>>
    decreases ts, 4int,
{
    if ts.len() == 0 {
        seq![]
    } else {
        seq![subtree_line_words(ts[0], files)] + subtree_line_list(ts.drop_first(), files)
    }
}

/// The blob entry lines, front to back; absent working files contribute
/// nothing.
pub open spec fn blob_line_list(bs: Seq<Seq<u8>>, files: Map<Seq<u8>, Seq<u8>>) -> Seq<Seq<u8>>
    decreases bs.len(),
{
    if bs.len() == 0 {
        seq![]
    } else {
        (if files.contains_key(bs[0]) {
            seq![blob_line_words(bs[0], files)]
        } else {
            seq![]
        }) + blob_line_list(bs.drop_first(), files)
    }
}

/// Lines, each terminated by a newline.
pub open spec fn nl_terminated(ls: Seq<Seq<u8>>) -> Seq<u8>
    decreases ls.len(),
{
    if ls.len() == 0 {
        seq![]
    } else {
        ls[0] + seq![10u8] + nl_terminated(ls.drop_first())
    }
}

proof fn lemma_nl_terminated_concat(a: Seq<Seq<u8>>, b: Seq<Seq<u8>>)
    ensures
        nl_terminated(a + b) == nl_terminated(a) + nl_terminated(b),
    decreases a.len(),
{
    if a.len() == 0 {
        assert(a + b =~= b);
        assert(nl_terminated(a) + nl_terminated(b) =~= nl_terminated(b));
    } else {
        lemma_nl_terminated_concat(a.drop_first(), b);
        assert((a + b)[0] == a[0]);
        assert((a + b).drop_first() =~= a.drop_first() + b);
        assert(nl_terminated(a + b) =~= nl_terminated(a) + nl_terminated(b));
    }
}

/// The subtree block is its lines, each newline-terminated.
proof fn lemma_subtree_lines_as_list(ts: Seq<TreeV>, files: Map<Seq<u8>, Seq<u8>>)
    ensures
        subtree_lines(ts, files) == nl_terminated(subtree_line_list(ts, files)),
    decreases ts.len(),
{
    if ts.len() == 0 {
        assert(subtree_lines(ts, files) =~= nl_terminated(subtree_line_list(ts, files)));
    } else {
        lemma_subtree_lines_as_list(ts.drop_last(), files);
        lemma_subtree_line_list_snoc(ts, files);
        lemma_nl_terminated_concat(
            subtree_line_list(ts.drop_last(), files),
            seq![subtree_line_words(ts.last(), files)],
        );
        assert(nl_terminated(seq![subtree_line_words(ts.last(), files)])
            =~= subtree_line_words(ts.last(), files) + seq![10u8]) by {
            let one = seq![subtree_line_words(ts.last(), files)];
            assert(one[0] == subtree_line_words(ts.last(), files));
            assert(one.drop_first() =~= Seq::<Seq<u8>>::empty());
            assert(nl_terminated(Seq::<Seq<u8>>::empty()) == Seq::<u8>::empty());
            assert(one[0] + seq![10u8] + Seq::<u8>::empty() =~= one[0] + seq![10u8]);
        }
        assert(subtree_lines(ts, files) =~= nl_terminated(subtree_line_list(ts, files)));
    }
}

/// The front-recursive line list grows at the back with the last subtree.
proof fn lemma_subtree_line_list_snoc(ts: Seq<TreeV>, files: Map<Seq<u8>, Seq<u8>>)
    requires
        ts.len() > 0,
    ensures
        subtree_line_list(ts, files) == subtree_line_list(ts.drop_last(), files) + seq![
            subtree_line_words(ts.last(), files),
        ],
    decreases ts.len(),
{
    if ts.len() == 1 {
        assert(ts.drop_first() =~= Seq::<TreeV>::empty());
        assert(ts.drop_last() =~= Seq::<TreeV>::empty());
        assert(subtree_line_list(ts, files) =~= subtree_line_list(ts.drop_last(), files) + seq![
            subtree_line_words(ts.last(), files),
        ]);
    } else {
        lemma_subtree_line_list_snoc(ts.drop_first(), files);
        assert(ts.drop_first().drop_last() =~= ts.drop_last().drop_first());
        assert(ts.drop_first().last() == ts.last());
        assert(ts.drop_last()[0] == ts[0]);
        assert(subtree_line_list(ts, files) =~= subtree_line_list(ts.drop_last(), files) + seq![
            subtree_line_words(ts.last(), files),
        ]);
    }
}

proof fn lemma_blob_line_list_snoc(bs: Seq<Seq<u8>>, files: Map<Seq<u8>, Seq<u8>>)
    requires
        bs.len() > 0,
    ensures
        blob_line_list(bs, files) == blob_line_list(bs.drop_last(), files) + (if files.contains_key(
            bs.last(),
        ) {
            seq![blob_line_words(bs.last(), files)]
        } else {
            Seq::<Seq<u8>>::empty()
        }),
    decreases bs.len(),
{
    if bs.len() == 1 {
        assert(bs.drop_first() =~= Seq::<Seq<u8>>::empty());
        assert(bs.drop_last() =~= Seq::<Seq<u8>>::empty());
        assert(blob_line_list(bs, files) =~= blob_line_list(bs.drop_last(), files) + (
        if files.contains_key(bs.last()) {
            seq![blob_line_words(bs.last(), files)]
        } else {
            Seq::<Seq<u8>>::empty()
        }));
    } else {
        lemma_blob_line_list_snoc(bs.drop_first(), files);
        assert(bs.drop_first().drop_last() =~= bs.drop_last().drop_first());
        assert(bs.drop_first().last() == bs.last());
        assert(bs.drop_last()[0] == bs[0]);
        assert(blob_line_list(bs, files) =~= blob_line_list(bs.drop_last(), files) + (
        if files.contains_key(bs.last()) {
            seq![blob_line_words(bs.last(), files)]
        } else {
            Seq::<Seq<u8>>::empty()
        }));
    }
}

/// The blob block is its lines, each newline-terminated.
proof fn lemma_blob_lines_as_list(bs: Seq<Seq<u8>>, files: Map<Seq<u8>, Seq<u8>>)
    ensures
        blob_lines(bs, files) == nl_terminated(blob_line_list(bs, files)),
    decreases bs.len(),
{
    if bs.len() == 0 {
        assert(blob_lines(bs, files) =~= nl_terminated(blob_line_list(bs, files)));
    } else {
        lemma_blob_lines_as_list(bs.drop_last(), files);
        lemma_blob_line_list_snoc(bs, files);
        if files.contains_key(bs.last()) {
            lemma_nl_terminated_concat(
                blob_line_list(bs.drop_last(), files),
                seq![blob_line_words(bs.last(), files)],
            );
            assert(nl_terminated(seq![blob_line_words(bs.last(), files)]) =~= blob_line_words(
                bs.last(),
                files,
            ) + seq![10u8]) by {
                let one = seq![blob_line_words(bs.last(), files)];
                assert(one[0] == blob_line_words(bs.last(), files));
                assert(one.drop_first() =~= Seq::<Seq<u8>>::empty());
                assert(nl_terminated(Seq::<Seq<u8>>::empty()) == Seq::<u8>::empty());
                assert(one[0] + seq![10u8] + Seq::<u8>::empty() =~= one[0] + seq![10u8]);
            }
            assert(blob_lines(bs, files) =~= nl_terminated(blob_line_list(bs, files)));
        } else {
            assert(blob_line_list(bs, files) =~= blob_line_list(bs.drop_last(), files));
            assert(blob_line(bs.last(), files) =~= Seq::<u8>::empty());
            assert(blob_lines(bs, files) =~= nl_terminated(blob_line_list(bs, files)));
        }
    }
}

/// The whole entry block as a line list.
pub open spec fn tree_line_list(t: TreeV, files: Map<Seq<u8>, Seq<u8>>) -> Seq<Seq<u8>> {
    subtree_line_list(t.subtrees, files) + blob_line_list(t.blobs, files)
}

pub proof fn lemma_tree_content_as_lines(t: TreeV, files: Map<Seq<u8>, Seq<u8>>)
    ensures
        tree_entries_content(t, files) == nl_terminated(tree_line_list(t, files)),
{
    lemma_subtree_lines_as_list(t.subtrees, files);
    lemma_blob_lines_as_list(t.blobs, files);
    lemma_nl_terminated_concat(
        subtree_line_list(t.subtrees, files),
        blob_line_list(t.blobs, files),
    );
}

/// Newline-terminated, newline-free lines split back into the lines and
/// one final empty piece.
pub proof fn lemma_lines_of_terminated(ls: Seq<Seq<u8>>)
    requires
        forall|i: int, j: int| 0 <= i < ls.len() && 0 <= j < ls[i].len() ==> ls[i][j] != 10u8,
    ensures
        lines_of(nl_terminated(ls)) == ls + seq![Seq::<u8>::empty()],
    decreases ls.len(),
{
    if ls.len() == 0 {
        assert(nl_terminated(ls) =~= Seq::<u8>::empty());
        crate::text::lemma_split_single(Seq::<u8>::empty(), 10u8);
        assert(lines_of(nl_terminated(ls)) =~= ls + seq![Seq::<u8>::empty()]);
    } else {
        assert(forall|i: int, j: int|
            0 <= i < ls.drop_first().len() && 0 <= j < ls.drop_first()[i].len()
                ==> #[trigger] ls.drop_first()[i][j] != 10u8) by {
            assert(forall|i: int|
                0 <= i < ls.drop_first().len() ==> ls.drop_first()[i] == ls[i + 1]);
        }
        lemma_lines_of_terminated(ls.drop_first());
        crate::text::lemma_split_prepend(ls[0], nl_terminated(ls.drop_first()), 10u8);
        assert(nl_terminated(ls) == ls[0] + seq![10u8] + nl_terminated(ls.drop_first()));
        assert(lines_of(nl_terminated(ls)) =~= ls + seq![Seq::<u8>::empty()]);
    }
}

/// The flat (path, digest) pairs the persisted tree encodes, in the
/// order its stored form lists them: each subtree's expansion, then this
/// tree's own blob entries.
pub open spec fn flat_pairs(t: TreeV, files: Map<Seq<u8>, Seq<u8>>) -> Seq<(Seq<u8>, Seq<u8>)>
    decreases t, 5int,
{
    subtree_flat_pairs(t.subtrees, files) + blob_pairs(t.blobs, files)
}

pub open spec fn subtree_flat_pairs(ts: Seq<TreeV>, files: Map<Seq<u8>, Seq<u8>>) -> Seq<
    (Seq<u8>, Seq<u8>),
>
    decreases ts, 6int,
{
    if ts.len() == 0 {
        seq![]
    } else {
        flat_pairs(ts[0], files) + subtree_flat_pairs(ts.drop_first(), files)
    }
}

pub open spec fn blob_pairs(bs: Seq<Seq<u8>>, files: Map<Seq<u8>, Seq<u8>>) -> Seq<
    (Seq<u8>, Seq<u8>),
>
    decreases bs.len(),
{
    if bs.len() == 0 {
        seq![]
    } else {
        (if files.contains_key(bs[0]) {
            seq![(bs[0], blob_hash_of(files[bs[0]]))]
        } else {
            seq![]
        }) + blob_pairs(bs.drop_first(), files)
    }
}

/// Every digest and name in the tree renders as a single plain word, as
/// hex digests and usable names do.
pub open spec fn tree_words_plain(t: TreeV, files: Map<Seq<u8>, Seq<u8>>) -> bool
    decreases t,
{
    &&& plain_word(tree_hash_v(t, files))
    &&& tree_hash_v(t, files).len() >= 2
    &&& (forall|i: int|
        0 <= i < t.blobs.len() && files.contains_key(#[trigger] t.blobs[i]) ==> plain_word(
            blob_hash_of(files[t.blobs[i]]),
        ))
    &&& (forall|i: int|
        0 <= i < t.subtrees.len() ==> plain_word((#[trigger] t.subtrees[i]).name))
    &&& (forall|i: int|
        0 <= i < t.subtrees.len() ==> tree_words_plain(#[trigger] t.subtrees[i], files))
}

/// Every object the tree persisted can be read back with its own
/// content: what the writes guarantee as long as no two distinct
/// subtrees collide in digest, the collision-freedom the digest is
/// trusted for.
pub open spec fn tree_objects_intact(
    t: TreeV,
    files: Map<Seq<u8>, Seq<u8>>,
    fstore: Map<Seq<u8>, Seq<u8>>,
) -> bool
    decreases t,
{
    &&& fstore.contains_key(object_path(tree_hash_v(t, files)))
    &&& inflate_of(fstore[object_path(tree_hash_v(t, files))]) == Some(
        tree_tag() + tree_entries_content(t, files),
    )
    &&& (forall|i: int|
        0 <= i < t.subtrees.len() ==> tree_objects_intact(#[trigger] t.subtrees[i], files, fstore))
}

/// The nesting depth of a tree.
pub open spec fn tree_height(t: TreeV) -> nat
    decreases t, 1int,
{
    1 + subtrees_height(t.subtrees)
}

pub open spec fn subtrees_height(ts: Seq<TreeV>) -> nat
    decreases ts, 0int,
{
    if ts.len() == 0 {
        0
    } else {
        let a = tree_height(ts[0]);
        let b = subtrees_height(ts.drop_first());
        if a > b {
            a
        } else {
            b
        }
    }
}

proof fn lemma_subtrees_height_bound(ts: Seq<TreeV>, i: int)
    requires
        0 <= i < ts.len(),
    ensures
        subtrees_height(ts) >= tree_height(ts[i]),
    decreases ts.len(),
{
    if i > 0 {
        lemma_subtrees_height_bound(ts.drop_first(), i - 1);
    }
}

/// A subtree entry line splits into exactly its three words.
proof fn lemma_subtree_line_split(name: Seq<u8>, hash: Seq<u8>)
    requires
        plain_word(name),
        plain_word(hash),
    ensures
        words_of(tree_entry_prefix() + name + seq![32u8] + hash) == seq![tree_word(), name, hash],
{
    let line = tree_entry_prefix() + name + seq![32u8] + hash;
    let tailpart = name + seq![32u8] + hash;
    assert(line =~= tree_word() + seq![32u8] + tailpart);
    assert(forall|j: int| 0 <= j < tree_word().len() ==> tree_word()[j] != 32u8);
    crate::text::lemma_split_prepend(tree_word(), tailpart, 32u8);
    assert(forall|j: int| 0 <= j < name.len() ==> name[j] != 32u8);
    crate::text::lemma_split_prepend(name, hash, 32u8);
    assert(forall|j: int| 0 <= j < hash.len() ==> hash[j] != 32u8);
    crate::text::lemma_split_single(hash, 32u8);
    assert(words_of(line) =~= seq![tree_word(), name, hash]);
}

/// A blob entry line splits into exactly its three words, the first of
/// which is not the subtree lead-in.
proof fn lemma_blob_line_split(path: Seq<u8>, hash: Seq<u8>)
    requires
        plain_word(path),
        plain_word(hash),
    ensures
        words_of(blob_entry_prefix() + path + seq![32u8] + hash) == seq![
            seq![98u8, 108u8, 111u8, 98u8],
            path,
            hash,
        ],
        seq![98u8, 108u8, 111u8, 98u8] != tree_word(),
{
    let blob_word = seq![98u8, 108u8, 111u8, 98u8];
    let line = blob_entry_prefix() + path + seq![32u8] + hash;
    let tailpart = path + seq![32u8] + hash;
    assert(line =~= blob_word + seq![32u8] + tailpart);
    assert(forall|j: int| 0 <= j < blob_word.len() ==> blob_word[j] != 32u8);
    crate::text::lemma_split_prepend(blob_word, tailpart, 32u8);
    assert(forall|j: int| 0 <= j < path.len() ==> path[j] != 32u8);
    crate::text::lemma_split_prepend(path, hash, 32u8);
    assert(forall|j: int| 0 <= j < hash.len() ==> hash[j] != 32u8);
    crate::text::lemma_split_single(hash, 32u8);
    assert(words_of(line) =~= seq![blob_word, path, hash]);
    assert(blob_word[0] != tree_word()[0]);
}

/// The walk only looks at the lines from its position on.
proof fn lemma_lines_list_shift(
    files: Map<Seq<u8>, Seq<u8>>,
    ls: Seq<Seq<u8>>,
    i: int,
    fuel: nat,
)
    requires
        0 <= i <= ls.len(),
    ensures
        tree_lines_list(files, ls, i, fuel) == tree_lines_list(files, ls.skip(i), 0, fuel),
    decreases ls.len() - i,
{
    if i < ls.len() {
        assert(ls.skip(i)[0] == ls[i]);
        if ls[i].len() == 0 {
        } else {
            lemma_lines_list_shift(files, ls, i + 1, fuel);
            lemma_lines_list_shift(files, ls.skip(i), 1, fuel);
            assert(ls.skip(i).skip(1) =~= ls.skip(i + 1));
        }
    } else {
        assert(ls.skip(i).len() == 0);
    }
}

/// No entry line contains a newline.
proof fn lemma_subtree_line_list_no_nl(ts: Seq<TreeV>, files: Map<Seq<u8>, Seq<u8>>)
    requires
        forall|i: int| 0 <= i < ts.len() ==> plain_word((#[trigger] ts[i]).name),
        forall|i: int| 0 <= i < ts.len() ==> plain_word(tree_hash_v(#[trigger] ts[i], files)),
    ensures
        forall|i: int, j: int|
            0 <= i < subtree_line_list(ts, files).len() && 0 <= j < subtree_line_list(
                ts,
                files,
            )[i].len() ==> subtree_line_list(ts, files)[i][j] != 10u8,
    decreases ts.len(),
{
    if ts.len() > 0 {
        assert(forall|i: int|
            0 <= i < ts.drop_first().len() ==> plain_word((#[trigger] ts.drop_first()[i]).name)
                && plain_word(tree_hash_v(ts.drop_first()[i], files))) by {
            assert(forall|i: int| 0 <= i < ts.drop_first().len() ==> ts.drop_first()[i] == ts[i + 1]);
        }
        lemma_subtree_line_list_no_nl(ts.drop_first(), files);
        let line0 = subtree_line_words(ts[0], files);
        assert(forall|j: int| 0 <= j < line0.len() ==> line0[j] != 10u8);
        assert(forall|i: int|
            1 <= i < subtree_line_list(ts, files).len() ==> subtree_line_list(ts, files)[i]
                == subtree_line_list(ts.drop_first(), files)[i - 1]);
        assert(subtree_line_list(ts, files)[0] == line0);
    }
}

proof fn lemma_blob_line_list_no_nl(bs: Seq<Seq<u8>>, files: Map<Seq<u8>, Seq<u8>>)
    requires
        forall|i: int| 0 <= i < bs.len() ==> plain_word(#[trigger] bs[i]),
        forall|i: int|
            0 <= i < bs.len() && files.contains_key(#[trigger] bs[i]) ==> plain_word(
                blob_hash_of(files[bs[i]]),
            ),
    ensures
        forall|i: int, j: int|
            0 <= i < blob_line_list(bs, files).len() && 0 <= j < blob_line_list(bs, files)[i].len()
                ==> blob_line_list(bs, files)[i][j] != 10u8,
    decreases bs.len(),
{
    if bs.len() > 0 {
        assert(forall|i: int|
            0 <= i < bs.drop_first().len() ==> plain_word(#[trigger] bs.drop_first()[i]) && (
            files.contains_key(bs.drop_first()[i]) ==> plain_word(
                blob_hash_of(files[bs.drop_first()[i]]),
            ))) by {
            assert(forall|i: int| 0 <= i < bs.drop_first().len() ==> bs.drop_first()[i] == bs[i + 1]);
        }
        lemma_blob_line_list_no_nl(bs.drop_first(), files);
        if files.contains_key(bs[0]) {
            let line0 = blob_line_words(bs[0], files);
            assert(forall|j: int| 0 <= j < line0.len() ==> line0[j] != 10u8);
            assert(forall|i: int|
                1 <= i < blob_line_list(bs, files).len() ==> blob_line_list(bs, files)[i]
                    == blob_line_list(bs.drop_first(), files)[i - 1]);
            assert(blob_line_list(bs, files)[0] == line0);
        } else {
            assert(blob_line_list(bs, files) =~= blob_line_list(bs.drop_first(), files));
        }
    }
}

/// Walking the subtree lines expands each subtree in place, then goes on
/// with whatever follows.
proof fn lemma_walk_subtrees(
    ts: Seq<TreeV>,
    files: Map<Seq<u8>, Seq<u8>>,
    fstore: Map<Seq<u8>, Seq<u8>>,
    fuel: nat,
    tail: Seq<Seq<u8>>,
)
    requires
        forall|i: int|
            0 <= i < ts.len() ==> (tree_paths_ok_v(#[trigger] ts[i]) && tree_words_plain(ts[i], files)
                && tree_objects_intact(ts[i], files, fstore) && fuel >= tree_height(ts[i])
                && plain_word(ts[i].name)),
    ensures
        tree_lines_list(fstore, subtree_line_list(ts, files) + tail, 0, fuel)
            == subtree_flat_pairs(ts, files) + tree_lines_list(fstore, tail, 0, fuel),
    decreases ts, 8int,
{
    if ts.len() == 0 {
        assert(subtree_line_list(ts, files) + tail =~= tail);
        assert(subtree_flat_pairs(ts, files) + tree_lines_list(fstore, tail, 0, fuel)
            =~= tree_lines_list(fstore, tail, 0, fuel));
    } else {
        let line0 = subtree_line_words(ts[0], files);
        let ls = subtree_line_list(ts, files) + tail;
        assert(ls[0] == line0);
        assert(line0.len() > 0);
        assert(tree_words_plain(ts[0], files));
        assert(plain_word(tree_hash_v(ts[0], files)));
        lemma_subtree_line_split(ts[0].name, tree_hash_v(ts[0], files));
        assert(words_of(ls[0]) == seq![tree_word(), ts[0].name, tree_hash_v(ts[0], files)]);
        assert(words_of(ls[0]).len() == 3);
        assert(words_of(ls[0])[0] == tree_word());
        assert(words_of(ls[0])[2] == tree_hash_v(ts[0], files));
        lemma_tree_round_trip(ts[0], files, fstore, fuel);
        lemma_lines_list_shift(fstore, ls, 1, fuel);
        assert(ls.skip(1) =~= subtree_line_list(ts.drop_first(), files) + tail);
        assert(forall|i: int|
            0 <= i < ts.drop_first().len() ==> ts.drop_first()[i] == ts[i + 1]);
        lemma_walk_subtrees(ts.drop_first(), files, fstore, fuel, tail);
        assert(tree_lines_list(fstore, ls, 0, fuel) == tree_item_list(
            fstore,
            tree_hash_v(ts[0], files),
            fuel,
        ) + tree_lines_list(fstore, ls, 1, fuel));
        assert(tree_lines_list(fstore, subtree_line_list(ts, files) + tail, 0, fuel)
            =~= subtree_flat_pairs(ts, files) + tree_lines_list(fstore, tail, 0, fuel));
    }
}

/// Walking the blob lines collects their pairs; the final empty line
/// ends the walk.
proof fn lemma_walk_blobs(
    bs: Seq<Seq<u8>>,
    files: Map<Seq<u8>, Seq<u8>>,
    fstore: Map<Seq<u8>, Seq<u8>>,
    fuel: nat,
)
    requires
        forall|i: int| 0 <= i < bs.len() ==> plain_word(#[trigger] bs[i]),
        forall|i: int|
            0 <= i < bs.len() && files.contains_key(#[trigger] bs[i]) ==> plain_word(
                blob_hash_of(files[bs[i]]),
            ),
    ensures
        tree_lines_list(
            fstore,
            blob_line_list(bs, files) + seq![Seq::<u8>::empty()],
            0,
            fuel,
        ) == blob_pairs(bs, files),
    decreases bs.len(),
{
    if bs.len() == 0 {
        let ls = blob_line_list(bs, files) + seq![Seq::<u8>::empty()];
        assert(ls[0].len() == 0);
        assert(blob_pairs(bs, files) =~= Seq::<(Seq<u8>, Seq<u8>)>::empty());
    } else {
        assert(forall|i: int|
            0 <= i < bs.drop_first().len() ==> bs.drop_first()[i] == bs[i + 1]);
        lemma_walk_blobs(bs.drop_first(), files, fstore, fuel);
        if files.contains_key(bs[0]) {
            let line0 = blob_line_words(bs[0], files);
            let ls = blob_line_list(bs, files) + seq![Seq::<u8>::empty()];
            assert(ls[0] == line0);
            assert(line0.len() > 0);
            lemma_blob_line_split(bs[0], blob_hash_of(files[bs[0]]));
            assert(words_of(ls[0]) == seq![
                seq![98u8, 108u8, 111u8, 98u8],
                bs[0],
                blob_hash_of(files[bs[0]]),
            ]);
            assert(words_of(ls[0]).len() == 3);
            assert(words_of(ls[0])[0] != tree_word());
            lemma_lines_list_shift(fstore, ls, 1, fuel);
            assert(ls.skip(1) =~= blob_line_list(bs.drop_first(), files) + seq![
                Seq::<u8>::empty(),
            ]);
            assert(tree_lines_list(fstore, ls, 0, fuel) =~= blob_pairs(bs, files));
        } else {
            assert(blob_line_list(bs, files) =~= blob_line_list(bs.drop_first(), files));
            assert(blob_pairs(bs, files) =~= blob_pairs(bs.drop_first(), files));
        }
    }
}

/// The round trip: flattening a persisted tree recovers exactly the
/// path-to-digest pairs its hashing recorded, provided every persisted
/// object reads back intact and the recursion budget covers the depth.
pub proof fn lemma_tree_round_trip(
    t: TreeV,
    files: Map<Seq<u8>, Seq<u8>>,
    fstore: Map<Seq<u8>, Seq<u8>>,
    fuel: nat,
)
    requires
        tree_paths_ok_v(t),
        tree_words_plain(t, files),
        tree_objects_intact(t, files, fstore),
        fuel >= tree_height(t),
    ensures
        tree_item_list(fstore, tree_hash_v(t, files), fuel) == flat_pairs(t, files),
    decreases t, 9int,
{
    let h = tree_hash_v(t, files);
    let content = tree_entries_content(t, files);
    assert(object_readable(fstore, h));
    assert(fuel >= 1);
    assert(forall|j: int| 0 <= j < tree_tag().len() - 1 ==> tree_tag()[j] != 10u8);
    lemma_strip_tag(tree_tag(), content);
    assert(object_content(fstore, h) == content);
    lemma_tree_content_as_lines(t, files);
    let ll = tree_line_list(t, files);
    assert forall|i: int| 0 <= i < t.subtrees.len() implies plain_word(
        (#[trigger] t.subtrees[i]).name,
    ) && plain_word(tree_hash_v(t.subtrees[i], files)) by {
        assert(tree_words_plain(t.subtrees[i], files));
    }
    lemma_subtree_line_list_no_nl(t.subtrees, files);
    assert(forall|i: int| 0 <= i < t.blobs.len() ==> plain_word(#[trigger] t.blobs[i])) by {
        assert(forall|i: int| 0 <= i < t.blobs.len() ==> wf_path(#[trigger] t.blobs[i]));
    }
    lemma_blob_line_list_no_nl(t.blobs, files);
    assert(forall|i: int, j: int|
        0 <= i < ll.len() && 0 <= j < ll[i].len() ==> ll[i][j] != 10u8) by {
        let a = subtree_line_list(t.subtrees, files);
        let b = blob_line_list(t.blobs, files);
        assert(forall|i: int| 0 <= i < a.len() ==> ll[i] == a[i]);
        assert(forall|i: int| a.len() <= i < ll.len() ==> ll[i] == b[i - a.len()]);
    }
    lemma_lines_of_terminated(ll);
    assert(lines_of(content) == ll + seq![Seq::<u8>::empty()]);
    let subfuel = (fuel - 1) as nat;
    assert(tree_item_list(fstore, h, fuel) == tree_lines_list(
        fstore,
        ll + seq![Seq::<u8>::empty()],
        0,
        subfuel,
    ));
    assert(ll + seq![Seq::<u8>::empty()] =~= subtree_line_list(t.subtrees, files) + (
    blob_line_list(t.blobs, files) + seq![Seq::<u8>::empty()]));
    assert forall|i: int| 0 <= i < t.subtrees.len() implies (tree_paths_ok_v(
        #[trigger] t.subtrees[i],
    ) && tree_words_plain(t.subtrees[i], files) && tree_objects_intact(
        t.subtrees[i],
        files,
        fstore,
    ) && subfuel >= tree_height(t.subtrees[i]) && plain_word(t.subtrees[i].name)) by {
        lemma_subtrees_height_bound(t.subtrees, i);
    }
    lemma_walk_subtrees(
        t.subtrees,
        files,
        fstore,
        subfuel,
        blob_line_list(t.blobs, files) + seq![Seq::<u8>::empty()],
    );
    lemma_walk_blobs(t.blobs, files, fstore, subfuel);
    assert(tree_item_list(fstore, h, fuel) == subtree_flat_pairs(t.subtrees, files) + blob_pairs(
        t.blobs,
        files,
    ));
}

/// Every working path the tree references, subtrees first.
pub open spec fn tree_blob_list(t: TreeV) -> Seq<Seq<u8>>
    decreases t, 10int,
{
    subtree_blob_list(t.subtrees) + t.blobs
}

pub open spec fn subtree_blob_list(ts: Seq<TreeV>) -> Seq<Seq<u8>>
    decreases ts, 11int,
{
    if ts.len() == 0 {
        seq![]
    } else {
        tree_blob_list(ts[0]) + subtree_blob_list(ts.drop_first())
    }
}

/// A subtree list's referenced paths are its members' paths.
proof fn lemma_subtree_blob_list_member(ts: Seq<TreeV>, k: Seq<u8>)
    ensures
        subtree_blob_list(ts).contains(k) <==> exists|j: int|
            0 <= j < ts.len() && tree_blob_list(#[trigger] ts[j]).contains(k),
    decreases ts.len(),
{
    if ts.len() > 0 {
        lemma_subtree_blob_list_member(ts.drop_first(), k);
        if subtree_blob_list(ts).contains(k) {
            if tree_blob_list(ts[0]).contains(k) {
            } else {
                assert(subtree_blob_list(ts.drop_first()).contains(k)) by {
                    let q = choose|q: int|
                        0 <= q < subtree_blob_list(ts).len() && subtree_blob_list(ts)[q] == k;
                    assert(subtree_blob_list(ts.drop_first())[q - tree_blob_list(
                        ts[0],
                    ).len()] == k);
                }
                let j = choose|j: int|
                    0 <= j < ts.drop_first().len() && tree_blob_list(
                        #[trigger] ts.drop_first()[j],
                    ).contains(k);
                assert(tree_blob_list(ts[j + 1]).contains(k));
            }
        }
        if exists|j: int| 0 <= j < ts.len() && tree_blob_list(#[trigger] ts[j]).contains(k) {
            let j = choose|j: int|
                0 <= j < ts.len() && tree_blob_list(#[trigger] ts[j]).contains(k);
            if j == 0 {
                let q = choose|q: int|
                    0 <= q < tree_blob_list(ts[0]).len() && tree_blob_list(ts[0])[q] == k;
                assert(subtree_blob_list(ts)[q] == k);
            } else {
                assert(ts.drop_first()[j - 1] == ts[j]);
                assert(subtree_blob_list(ts.drop_first()).contains(k));
                let q = choose|q: int|
                    0 <= q < subtree_blob_list(ts.drop_first()).len() && subtree_blob_list(
                        ts.drop_first(),
                    )[q] == k;
                assert(subtree_blob_list(ts)[q + tree_blob_list(ts[0]).len()] == k);
            }
        }
    }
}

/// The keys of the blob pairs are among the blob paths.
proof fn lemma_blob_pairs_keys(bs: Seq<Seq<u8>>, files: Map<Seq<u8>, Seq<u8>>, k: Seq<u8>)
    ensures
        crate::pathmap::map_of(blob_pairs(bs, files)).contains_key(k) ==> bs.contains(k),
    decreases bs.len(),
{
    crate::pathmap::lemma_map_of_contains(blob_pairs(bs, files), k);
    if crate::pathmap::map_of(blob_pairs(bs, files)).contains_key(k) {
        lemma_blob_pairs_member(bs, files, k);
    }
}

proof fn lemma_blob_pairs_member(bs: Seq<Seq<u8>>, files: Map<Seq<u8>, Seq<u8>>, k: Seq<u8>)
    requires
        exists|q: int|
            0 <= q < blob_pairs(bs, files).len() && (#[trigger] blob_pairs(bs, files)[q]).0 == k,
    ensures
        bs.contains(k),
    decreases bs.len(),
{
    let q = choose|q: int|
        0 <= q < blob_pairs(bs, files).len() && (#[trigger] blob_pairs(bs, files)[q]).0 == k;
    if files.contains_key(bs[0]) && q == 0 {
        assert(blob_pairs(bs, files)[0] == (bs[0], blob_hash_of(files[bs[0]])));
        assert(bs[0] == k);
    } else {
        let head: int = if files.contains_key(bs[0]) {
            1
        } else {
            0
        };
        assert(blob_pairs(bs.drop_first(), files)[q - head] == blob_pairs(bs, files)[q]);
        lemma_blob_pairs_member(bs.drop_first(), files, k);
        let w = choose|w: int| 0 <= w < bs.drop_first().len() && bs.drop_first()[w] == k;
        assert(bs[w + 1] == k);
    }
}

/// The keys of a tree's flat pairs are among its referenced paths.
proof fn lemma_flat_keys_tree(t: TreeV, files: Map<Seq<u8>, Seq<u8>>, k: Seq<u8>)
    ensures
        crate::pathmap::map_of(flat_pairs(t, files)).contains_key(k) ==> tree_blob_list(
            t,
        ).contains(k),
    decreases t, 12int,
{
    crate::pathmap::lemma_map_of_concat(
        subtree_flat_pairs(t.subtrees, files),
        blob_pairs(t.blobs, files),
    );
    if crate::pathmap::map_of(flat_pairs(t, files)).contains_key(k) {
        lemma_flat_keys_list(t.subtrees, files, k);
        lemma_blob_pairs_keys(t.blobs, files, k);
        if crate::pathmap::map_of(subtree_flat_pairs(t.subtrees, files)).contains_key(k) {
            assert(subtree_blob_list(t.subtrees).contains(k));
            let q = choose|q: int|
                0 <= q < subtree_blob_list(t.subtrees).len() && subtree_blob_list(
                    t.subtrees,
                )[q] == k;
            assert(tree_blob_list(t)[q] == k);
        } else {
            assert(t.blobs.contains(k));
            let q = choose|q: int| 0 <= q < t.blobs.len() && t.blobs[q] == k;
            assert(tree_blob_list(t)[q + subtree_blob_list(t.subtrees).len()] == k);
        }
    }
}

proof fn lemma_flat_keys_list(ts: Seq<TreeV>, files: Map<Seq<u8>, Seq<u8>>, k: Seq<u8>)
    ensures
        crate::pathmap::map_of(subtree_flat_pairs(ts, files)).contains_key(k)
            ==> subtree_blob_list(ts).contains(k),
    decreases ts, 13int,
{
    if ts.len() > 0 {
        crate::pathmap::lemma_map_of_concat(
            flat_pairs(ts[0], files),
            subtree_flat_pairs(ts.drop_first(), files),
        );
        if crate::pathmap::map_of(subtree_flat_pairs(ts, files)).contains_key(k) {
            lemma_flat_keys_tree(ts[0], files, k);
            lemma_flat_keys_list(ts.drop_first(), files, k);
            lemma_subtree_blob_list_member(ts, k);
            lemma_subtree_blob_list_member(ts.drop_first(), k);
            if crate::pathmap::map_of(flat_pairs(ts[0], files)).contains_key(k) {
                assert(tree_blob_list(ts[0]).contains(k));
            } else {
                assert(subtree_blob_list(ts.drop_first()).contains(k));
                let j = choose|j: int|
                    0 <= j < ts.drop_first().len() && tree_blob_list(
                        #[trigger] ts.drop_first()[j],
                    ).contains(k);
                assert(tree_blob_list(ts[j + 1]).contains(k));
            }
        }
    }
}

/// The remainder a segment split leaves is strictly shorter and keeps
/// its leading separator.
pub proof fn lemma_get_word_shape(path: Seq<u8>)
    requires
        path.len() > 0,
    ensures
        get_word_spec(path) is Some,
        get_word_spec(path).unwrap().1.len() < path.len(),
        get_word_spec(path).unwrap().1.len() > 0 ==> get_word_spec(path).unwrap().1[0] == 47u8,
{
    let s = if path[0] == sep() {
        path.drop_first()
    } else {
        path
    };
    lemma_first_byte(s, sep());
    if path[0] != sep() {
        assert(first_byte(s, sep()) >= 1);
    }
}

/// Membership in a concatenation.
proof fn lemma_concat_contains(a: Seq<Seq<u8>>, b: Seq<Seq<u8>>, k: Seq<u8>)
    ensures
        (a + b).contains(k) <==> (a.contains(k) || b.contains(k)),
{
    if (a + b).contains(k) {
        let q = choose|q: int| 0 <= q < (a + b).len() && (a + b)[q] == k;
        if q < a.len() {
            assert(a[q] == k);
        } else {
            assert(b[q - a.len()] == k);
        }
    }
    if a.contains(k) {
        let q = choose|q: int| 0 <= q < a.len() && a[q] == k;
        assert((a + b)[q] == k);
    }
    if b.contains(k) {
        let q = choose|q: int| 0 <= q < b.len() && b[q] == k;
        assert((a + b)[q + a.len()] == k);
    }
}

/// Appending one subtree appends its referenced paths.
proof fn lemma_subtree_blob_list_snoc(ts: Seq<TreeV>, s: TreeV)
    ensures
        subtree_blob_list(ts.push(s)) == subtree_blob_list(ts) + tree_blob_list(s),
    decreases ts.len(),
{
    if ts.len() == 0 {
        assert(ts.push(s)[0] == s);
        assert(ts.push(s).drop_first() =~= Seq::<TreeV>::empty());
        assert(subtree_blob_list(Seq::<TreeV>::empty()) == Seq::<Seq<u8>>::empty());
        assert(subtree_blob_list(ts.push(s)) =~= subtree_blob_list(ts) + tree_blob_list(s));
    } else {
        lemma_subtree_blob_list_snoc(ts.drop_first(), s);
        assert(ts.push(s)[0] == ts[0]);
        assert(ts.push(s).drop_first() =~= ts.drop_first().push(s));
        assert(subtree_blob_list(ts.push(s)) =~= subtree_blob_list(ts) + tree_blob_list(s));
    }
}

/// What inserting a path does to the referenced paths: exactly the
/// attached path joins them.
proof fn lemma_blob_list_after_add(t: TreeV, path: Seq<u8>, full: Seq<u8>, k: Seq<u8>)
    requires
        path.len() > 0,
    ensures
        tree_blob_list(add_blob_v(t, path, full)).contains(k) <==> (tree_blob_list(t).contains(k)
            || k == full),
    decreases path.len(),
{
    lemma_get_word_shape(path);
    let pair = get_word_spec(path).unwrap();
    let word = pair.0;
    let rest = pair.1;
    let idx = first_subtree(t.subtrees, word);
    lemma_first_subtree(t.subtrees, word);
    let r = add_blob_v(t, path, full);
    if idx == t.subtrees.len() {
        if rest.len() == 0 {
            assert(tree_blob_list(r) =~= tree_blob_list(t).push(full));
            lemma_concat_contains(tree_blob_list(t), seq![full], k);
            assert(tree_blob_list(t).push(full) =~= tree_blob_list(t) + seq![full]);
            assert(seq![full].contains(k) <==> k == full) by {
                if seq![full].contains(k) {
                    let q = choose|q: int| 0 <= q < 1 && seq![full][q] == k;
                    assert(seq![full][0] == full);
                }
                assert(seq![full][0] == full);
            }
        } else {
            let sub = add_blob_v(empty_tree_v(word), rest, full);
            lemma_blob_list_after_add(empty_tree_v(word), rest, full, k);
            assert(tree_blob_list(empty_tree_v(word)) =~= Seq::<Seq<u8>>::empty());
            assert(subtree_blob_list(empty_tree_v(word).subtrees) =~= Seq::<Seq<u8>>::empty());
            lemma_subtree_blob_list_snoc(t.subtrees, sub);
            assert(tree_blob_list(r) =~= (subtree_blob_list(t.subtrees) + tree_blob_list(sub))
                + t.blobs);
            lemma_concat_contains(
                subtree_blob_list(t.subtrees) + tree_blob_list(sub),
                t.blobs,
                k,
            );
            lemma_concat_contains(subtree_blob_list(t.subtrees), tree_blob_list(sub), k);
            lemma_concat_contains(subtree_blob_list(t.subtrees), t.blobs, k);
            assert(tree_blob_list(t) == subtree_blob_list(t.subtrees) + t.blobs);
        }
    } else {
        let sub = t.subtrees[idx];
        let sub2 = if rest.len() == 0 {
            TreeV { name: sub.name, blobs: sub.blobs.push(full), subtrees: sub.subtrees }
        } else {
            add_blob_v(sub, rest, full)
        };
        if rest.len() == 0 {
            assert(tree_blob_list(sub2) =~= tree_blob_list(sub).push(full));
            lemma_concat_contains(tree_blob_list(sub), seq![full], k);
            assert(tree_blob_list(sub).push(full) =~= tree_blob_list(sub) + seq![full]);
            assert(seq![full].contains(k) <==> k == full) by {
                if seq![full].contains(k) {
                    let q = choose|q: int| 0 <= q < 1 && seq![full][q] == k;
                }
                assert(seq![full][0] == full);
            }
            assert(tree_blob_list(sub2).contains(k) <==> (tree_blob_list(sub).contains(k) || k
                == full));
        } else {
            lemma_blob_list_after_add(sub, rest, full, k);
        }
        let ts2 = t.subtrees.update(idx, sub2);
        lemma_subtree_blob_list_member(ts2, k);
        lemma_subtree_blob_list_member(t.subtrees, k);
        lemma_concat_contains(subtree_blob_list(ts2), t.blobs, k);
        lemma_concat_contains(subtree_blob_list(t.subtrees), t.blobs, k);
        assert(tree_blob_list(r) == subtree_blob_list(ts2) + t.blobs);
        assert(tree_blob_list(t) == subtree_blob_list(t.subtrees) + t.blobs);
        assert(subtree_blob_list(ts2).contains(k) <==> (subtree_blob_list(t.subtrees).contains(k)
            || k == full)) by {
            if subtree_blob_list(ts2).contains(k) {
                let j = choose|j: int|
                    0 <= j < ts2.len() && tree_blob_list(#[trigger] ts2[j]).contains(k);
                if j == idx {
                } else {
                    assert(ts2[j] == t.subtrees[j]);
                }
            }
            if subtree_blob_list(t.subtrees).contains(k) {
                let j = choose|j: int|
                    0 <= j < t.subtrees.len() && tree_blob_list(
                        #[trigger] t.subtrees[j],
                    ).contains(k);
                if j == idx {
                    assert(tree_blob_list(ts2[idx]).contains(k));
                } else {
                    assert(ts2[j] == t.subtrees[j]);
                    assert(tree_blob_list(ts2[j]).contains(k));
                }
            }
            if k == full {
                assert(tree_blob_list(ts2[idx]).contains(k));
            }
        }
    }
}

proof fn lemma_blob_pairs_snoc(bs: Seq<Seq<u8>>, p: Seq<u8>, files: Map<Seq<u8>, Seq<u8>>)
    ensures
        blob_pairs(bs.push(p), files) == blob_pairs(bs, files) + (if files.contains_key(p) {
            seq![(p, blob_hash_of(files[p]))]
        } else {
            Seq::<(Seq<u8>, Seq<u8>)>::empty()
        }),
    decreases bs.len(),
{
    if bs.len() == 0 {
        assert(bs.push(p)[0] == p);
        assert(bs.push(p).drop_first() =~= Seq::<Seq<u8>>::empty());
        assert(blob_pairs(Seq::<Seq<u8>>::empty(), files) == Seq::<(Seq<u8>, Seq<u8>)>::empty());
        assert(blob_pairs(bs.push(p), files) =~= blob_pairs(bs, files) + (if files.contains_key(
            p,
        ) {
            seq![(p, blob_hash_of(files[p]))]
        } else {
            Seq::<(Seq<u8>, Seq<u8>)>::empty()
        }));
    } else {
        lemma_blob_pairs_snoc(bs.drop_first(), p, files);
        assert(bs.push(p)[0] == bs[0]);
        assert(bs.push(p).drop_first() =~= bs.drop_first().push(p));
        assert(blob_pairs(bs.push(p), files) =~= blob_pairs(bs, files) + (if files.contains_key(
            p,
        ) {
            seq![(p, blob_hash_of(files[p]))]
        } else {
            Seq::<(Seq<u8>, Seq<u8>)>::empty()
        }));
    }
}

proof fn lemma_subtree_flats_snoc(ts: Seq<TreeV>, s: TreeV, files: Map<Seq<u8>, Seq<u8>>)
    ensures
        subtree_flat_pairs(ts.push(s), files) == subtree_flat_pairs(ts, files) + flat_pairs(
            s,
            files,
        ),
    decreases ts.len(),
{
    if ts.len() == 0 {
        assert(ts.push(s)[0] == s);
        assert(ts.push(s).drop_first() =~= Seq::<TreeV>::empty());
        assert(subtree_flat_pairs(Seq::<TreeV>::empty(), files) == Seq::<
            (Seq<u8>, Seq<u8>),
        >::empty());
        assert(subtree_flat_pairs(ts.push(s), files) =~= subtree_flat_pairs(ts, files)
            + flat_pairs(s, files));
    } else {
        lemma_subtree_flats_snoc(ts.drop_first(), s, files);
        assert(ts.push(s)[0] == ts[0]);
        assert(ts.push(s).drop_first() =~= ts.drop_first().push(s));
        assert(subtree_flat_pairs(ts.push(s), files) =~= subtree_flat_pairs(ts, files)
            + flat_pairs(s, files));
    }
}

proof fn lemma_subtree_flats_split(ts: Seq<TreeV>, files: Map<Seq<u8>, Seq<u8>>, idx: int)
    requires
        0 <= idx < ts.len(),
    ensures
        subtree_flat_pairs(ts, files) == subtree_flat_pairs(ts.take(idx), files) + flat_pairs(
            ts[idx],
            files,
        ) + subtree_flat_pairs(ts.skip(idx + 1), files),
    decreases idx,
{
    if idx == 0 {
        assert(ts.take(0) =~= Seq::<TreeV>::empty());
        assert(subtree_flat_pairs(Seq::<TreeV>::empty(), files) == Seq::<
            (Seq<u8>, Seq<u8>),
        >::empty());
        assert(ts.skip(1) =~= ts.drop_first());
        assert(subtree_flat_pairs(ts, files) =~= subtree_flat_pairs(ts.take(0), files)
            + flat_pairs(ts[0], files) + subtree_flat_pairs(ts.skip(1), files));
    } else {
        lemma_subtree_flats_split(ts.drop_first(), files, idx - 1);
        assert(ts.drop_first().take(idx - 1) =~= ts.take(idx).drop_first());
        assert(ts.drop_first().skip(idx) =~= ts.skip(idx + 1));
        assert(ts.drop_first()[idx - 1] == ts[idx]);
        assert(ts.take(idx)[0] == ts[0]);
        assert(subtree_flat_pairs(ts.take(idx), files) == flat_pairs(ts[0], files)
            + subtree_flat_pairs(ts.take(idx).drop_first(), files));
        assert(subtree_flat_pairs(ts, files) =~= subtree_flat_pairs(ts.take(idx), files)
            + flat_pairs(ts[idx], files) + subtree_flat_pairs(ts.skip(idx + 1), files));
    }
}

/// What inserting a working file does to the flat map of a tree: the
/// file's pair joins it, under its full path, when the file exists.
pub proof fn lemma_add_blob_flat_map(
    t: TreeV,
    files: Map<Seq<u8>, Seq<u8>>,
    path: Seq<u8>,
    full: Seq<u8>,
)
    requires
        path.len() > 0,
        !tree_blob_list(t).contains(full),
    ensures
        crate::pathmap::map_of(flat_pairs(add_blob_v(t, path, full), files)) == (
        if files.contains_key(full) {
            crate::pathmap::map_of(flat_pairs(t, files)).insert(full, blob_hash_of(files[full]))
        } else {
            crate::pathmap::map_of(flat_pairs(t, files))
        }),
    decreases path.len(),
{
    lemma_get_word_shape(path);
    let pair = get_word_spec(path).unwrap();
    let word = pair.0;
    let rest = pair.1;
    let idx = first_subtree(t.subtrees, word);
    lemma_first_subtree(t.subtrees, word);
    let r = add_blob_v(t, path, full);
    let mb = crate::pathmap::map_of(blob_pairs(t.blobs, files));
    assert(!mb.contains_key(full)) by {
        lemma_blob_pairs_keys(t.blobs, files, full);
        if t.blobs.contains(full) {
            let q = choose|q: int| 0 <= q < t.blobs.len() && t.blobs[q] == full;
            assert(tree_blob_list(t)[q + subtree_blob_list(t.subtrees).len()] == full);
        }
    }
    if idx == t.subtrees.len() {
        if rest.len() == 0 {
            lemma_blob_pairs_snoc(t.blobs, full, files);
            if files.contains_key(full) {
                assert(flat_pairs(r, files) =~= flat_pairs(t, files).push(
                    (full, blob_hash_of(files[full])),
                ));
                crate::pathmap::lemma_map_of_snoc(
                    flat_pairs(t, files),
                    full,
                    blob_hash_of(files[full]),
                );
            } else {
                assert(flat_pairs(r, files) =~= flat_pairs(t, files));
            }
        } else {
            let empty_sub = empty_tree_v(word);
            assert(tree_blob_list(empty_sub) =~= Seq::<Seq<u8>>::empty());
            lemma_add_blob_flat_map(empty_sub, files, rest, full);
            let sub = add_blob_v(empty_sub, rest, full);
            assert(subtree_flat_pairs(empty_sub.subtrees, files) == Seq::<
                (Seq<u8>, Seq<u8>),
            >::empty());
            assert(blob_pairs(empty_sub.blobs, files) == Seq::<(Seq<u8>, Seq<u8>)>::empty());
            assert(flat_pairs(empty_sub, files) =~= Seq::<(Seq<u8>, Seq<u8>)>::empty());
            assert(crate::pathmap::map_of(flat_pairs(empty_sub, files)) == Map::<
                Seq<u8>,
                Seq<u8>,
            >::empty());
            lemma_subtree_flats_snoc(t.subtrees, sub, files);
            assert(flat_pairs(r, files) == (subtree_flat_pairs(t.subtrees, files) + flat_pairs(
                sub,
                files,
            )) + blob_pairs(t.blobs, files));
            let ma = crate::pathmap::map_of(subtree_flat_pairs(t.subtrees, files));
            let mx = crate::pathmap::map_of(flat_pairs(sub, files));
            crate::pathmap::lemma_map_of_concat(
                subtree_flat_pairs(t.subtrees, files) + flat_pairs(sub, files),
                blob_pairs(t.blobs, files),
            );
            crate::pathmap::lemma_map_of_concat(
                subtree_flat_pairs(t.subtrees, files),
                flat_pairs(sub, files),
            );
            crate::pathmap::lemma_map_of_concat(
                subtree_flat_pairs(t.subtrees, files),
                blob_pairs(t.blobs, files),
            );
            if files.contains_key(full) {
                let h = blob_hash_of(files[full]);
                assert(mx == Map::<Seq<u8>, Seq<u8>>::empty().insert(full, h));
                assert(ma.union_prefer_right(mx) =~= ma.insert(full, h));
                assert(ma.insert(full, h).union_prefer_right(mb) =~= ma.union_prefer_right(
                    mb,
                ).insert(full, h));
                assert(crate::pathmap::map_of(flat_pairs(r, files)) =~= crate::pathmap::map_of(
                    flat_pairs(t, files),
                ).insert(full, h));
            } else {
                assert(mx == Map::<Seq<u8>, Seq<u8>>::empty());
                assert(ma.union_prefer_right(mx) =~= ma);
                assert(crate::pathmap::map_of(flat_pairs(r, files)) =~= crate::pathmap::map_of(
                    flat_pairs(t, files),
                ));
            }
        }
    } else {
        let sub = t.subtrees[idx];
        let sub2 = if rest.len() == 0 {
            TreeV { name: sub.name, blobs: sub.blobs.push(full), subtrees: sub.subtrees }
        } else {
            add_blob_v(sub, rest, full)
        };
        assert(!tree_blob_list(sub).contains(full)) by {
            if tree_blob_list(sub).contains(full) {
                lemma_subtree_blob_list_member(t.subtrees, full);
                assert(subtree_blob_list(t.subtrees).contains(full));
                let q = choose|q: int|
                    0 <= q < subtree_blob_list(t.subtrees).len() && subtree_blob_list(
                        t.subtrees,
                    )[q] == full;
                assert(tree_blob_list(t)[q] == full);
            }
        }
        if rest.len() == 0 {
            // the leaf names an existing subtree: the blob still joins it
            // under its full path
            lemma_blob_pairs_snoc(sub.blobs, full, files);
            if files.contains_key(full) {
                assert(flat_pairs(sub2, files) =~= flat_pairs(sub, files).push(
                    (full, blob_hash_of(files[full])),
                ));
                crate::pathmap::lemma_map_of_snoc(
                    flat_pairs(sub, files),
                    full,
                    blob_hash_of(files[full]),
                );
            } else {
                assert(flat_pairs(sub2, files) =~= flat_pairs(sub, files));
            }
        } else {
            lemma_add_blob_flat_map(sub, files, rest, full);
        }
        let ts2 = t.subtrees.update(idx, sub2);
        lemma_subtree_flats_split(t.subtrees, files, idx);
        lemma_subtree_flats_split(ts2, files, idx);
        assert(ts2.take(idx) =~= t.subtrees.take(idx));
        assert(ts2.skip(idx + 1) =~= t.subtrees.skip(idx + 1));
        assert(ts2[idx] == sub2);
        let fa = subtree_flat_pairs(t.subtrees.take(idx), files);
        let fc = subtree_flat_pairs(t.subtrees.skip(idx + 1), files);
        let fx = flat_pairs(sub, files);
        let fx2 = flat_pairs(sub2, files);
        let fb = blob_pairs(t.blobs, files);
        let ma = crate::pathmap::map_of(fa);
        let mc = crate::pathmap::map_of(fc);
        let mx = crate::pathmap::map_of(fx);
        let mx2 = crate::pathmap::map_of(fx2);
        crate::pathmap::lemma_map_of_concat(fa + fx + fc, fb);
        crate::pathmap::lemma_map_of_concat(fa + fx, fc);
        crate::pathmap::lemma_map_of_concat(fa, fx);
        crate::pathmap::lemma_map_of_concat(fa + fx2 + fc, fb);
        crate::pathmap::lemma_map_of_concat(fa + fx2, fc);
        crate::pathmap::lemma_map_of_concat(fa, fx2);
        assert(flat_pairs(t, files) == (fa + fx + fc) + fb);
        assert(flat_pairs(r, files) == (fa + fx2 + fc) + fb);
        assert(!mc.contains_key(full)) by {
            lemma_flat_keys_list(t.subtrees.skip(idx + 1), files, full);
            if subtree_blob_list(t.subtrees.skip(idx + 1)).contains(full) {
                lemma_subtree_blob_list_member(t.subtrees.skip(idx + 1), full);
                let j = choose|j: int|
                    0 <= j < t.subtrees.skip(idx + 1).len() && tree_blob_list(
                        #[trigger] t.subtrees.skip(idx + 1)[j],
                    ).contains(full);
                assert(t.subtrees.skip(idx + 1)[j] == t.subtrees[idx + 1 + j]);
                lemma_subtree_blob_list_member(t.subtrees, full);
                assert(subtree_blob_list(t.subtrees).contains(full));
                let q = choose|q: int|
                    0 <= q < subtree_blob_list(t.subtrees).len() && subtree_blob_list(
                        t.subtrees,
                    )[q] == full;
                assert(tree_blob_list(t)[q] == full);
            }
        }
        if files.contains_key(full) {
            let h = blob_hash_of(files[full]);
            assert(mx2 == mx.insert(full, h));
            assert(ma.union_prefer_right(mx.insert(full, h)) =~= ma.union_prefer_right(
                mx,
            ).insert(full, h));
            assert(ma.union_prefer_right(mx).insert(full, h).union_prefer_right(mc)
                =~= ma.union_prefer_right(mx).union_prefer_right(mc).insert(full, h));
            assert(ma.union_prefer_right(mx).union_prefer_right(mc).insert(
                full,
                h,
            ).union_prefer_right(mb) =~= ma.union_prefer_right(mx).union_prefer_right(
                mc,
            ).union_prefer_right(mb).insert(full, h));
            assert(crate::pathmap::map_of(flat_pairs(r, files)) =~= crate::pathmap::map_of(
                flat_pairs(t, files),
            ).insert(full, h));
        } else {
            assert(mx2 == mx);
            assert(crate::pathmap::map_of(flat_pairs(r, files)) =~= crate::pathmap::map_of(
                flat_pairs(t, files),
            ));
        }
    }
}

/// The map a snapshot of working files should flatten back to: each path
/// bound to its content's digest, for the paths whose files exist.
pub open spec fn expected_blob_map(
    es: Seq<(Seq<u8>, Seq<u8>)>,
    files: Map<Seq<u8>, Seq<u8>>,
) -> Map<Seq<u8>, Seq<u8>>
    decreases es.len(),
{
    if es.len() == 0 {
        Map::empty()
    } else {
        let m = expected_blob_map(es.drop_last(), files);
        if files.contains_key(es.last().0) {
            m.insert(es.last().0, blob_hash_of(files[es.last().0]))
        } else {
            m
        }
    }
}

/// Building a tree from a flat snapshot records exactly the snapshot's
/// pairs: the built tree's flat map is the expected one, and it
/// references exactly the inserted paths.
pub proof fn lemma_build_flat_map(es: Seq<(Seq<u8>, Seq<u8>)>, files: Map<Seq<u8>, Seq<u8>>)
    requires
        crate::pathmap::keys_unique(es),
        forall|i: int| 0 <= i < es.len() ==> (#[trigger] es[i]).0.len() > 0,
    ensures
        crate::pathmap::map_of(flat_pairs(tree_of_entries(es), files)) == expected_blob_map(
            es,
            files,
        ),
        forall|k: Seq<u8>|
            #[trigger] tree_blob_list(tree_of_entries(es)).contains(k) <==> exists|i: int|
                0 <= i < es.len() && (#[trigger] es[i]).0 == k,
    decreases es.len(),
{
    if es.len() == 0 {
        let t = tree_of_entries(es);
        assert(t == empty_tree_v(seq![47u8]));
        assert(subtree_flat_pairs(t.subtrees, files) == Seq::<(Seq<u8>, Seq<u8>)>::empty());
        assert(blob_pairs(t.blobs, files) == Seq::<(Seq<u8>, Seq<u8>)>::empty());
        assert(flat_pairs(t, files) =~= Seq::<(Seq<u8>, Seq<u8>)>::empty());
        assert(crate::pathmap::map_of(flat_pairs(t, files)) == Map::<Seq<u8>, Seq<u8>>::empty());
        assert(subtree_blob_list(t.subtrees) == Seq::<Seq<u8>>::empty());
        assert(tree_blob_list(t) =~= Seq::<Seq<u8>>::empty());
        assert(forall|k: Seq<u8>| !tree_blob_list(t).contains(k));
    } else {
        let pre = es.drop_last();
        let last = es.last();
        assert(crate::pathmap::keys_unique(pre));
        assert(forall|i: int| 0 <= i < pre.len() ==> (#[trigger] pre[i]).0.len() > 0);
        lemma_build_flat_map(pre, files);
        let t_pre = tree_of_entries(pre);
        let t = tree_of_entries(es);
        assert(t == add_blob_v(t_pre, last.0, last.0));
        assert(!tree_blob_list(t_pre).contains(last.0)) by {
            if tree_blob_list(t_pre).contains(last.0) {
                let i = choose|i: int| 0 <= i < pre.len() && (#[trigger] pre[i]).0 == last.0;
                assert(es[i].0 == es[es.len() - 1].0);
            }
        }
        assert(last.0.len() > 0) by {
            assert(es[es.len() - 1].0.len() > 0);
        }
        lemma_add_blob_flat_map(t_pre, files, last.0, last.0);
        assert(crate::pathmap::map_of(flat_pairs(t, files)) == expected_blob_map(es, files));
        assert forall|k: Seq<u8>| #[trigger]
            tree_blob_list(t).contains(k) <==> exists|i: int|
                0 <= i < es.len() && (#[trigger] es[i]).0 == k by {
            lemma_blob_list_after_add(t_pre, last.0, last.0, k);
            if tree_blob_list(t).contains(k) {
                if k == last.0 {
                    assert(es[es.len() - 1].0 == k);
                } else {
                    let i = choose|i: int| 0 <= i < pre.len() && (#[trigger] pre[i]).0 == k;
                    assert(es[i].0 == k);
                }
            }
            if exists|i: int| 0 <= i < es.len() && (#[trigger] es[i]).0 == k {
                let i = choose|i: int| 0 <= i < es.len() && (#[trigger] es[i]).0 == k;
                if i == es.len() - 1 {
                } else {
                    assert(pre[i].0 == k);
                }
            }
        }
    }
}

} // verus!
