//! The repository: the five operations composed over an explicit file
//! store, each specified by a functional mirror of its effect.

use vstd::prelude::*;

use crate::blob::blob_hash_of;
use crate::blob::blob_store_content;
use crate::blob::with_object;
use crate::branch::branch_ref_path;
use crate::branch::branch_ref_path_of;
use crate::branch::get_commit;
use crate::branch::ref_content;
use crate::branch::set_last_commit;
use crate::codec::deflate_of;
use crate::commit::commit_content;
use crate::commit::commit_hash_of;
use crate::commit::is_ancestor;
use crate::commit::mrca;
use crate::commit::resolve_commit;
use crate::commit::write_commit;
use crate::commit::CommitNode;
use crate::diff::diff_of;
use crate::diff::get_diff_files;
use crate::file::object_content;
use crate::file::object_readable;
use crate::index::index_entries_of;
use crate::index::index_file_rep;
use crate::index::Index;
use crate::merge::add_new_keys;
use crate::merge::entries_paths_wf;
use crate::merge::has_conflicting_add;
use crate::merge::merge_walk;
use crate::merge::three_fold;
use crate::merge::MergeError;
use crate::paths::head_path;
use crate::paths::head_path_vec;
use crate::paths::index_path;
use crate::paths::index_path_vec;
use crate::paths::master_ref_path;
use crate::paths::master_ref_path_vec;
use crate::paths::object_path;
use crate::paths::yit_root;
use crate::paths::yit_root_vec;
use crate::pathmap::extend_entries;
use crate::pathmap::insert_entry;
use crate::pathmap::map_of;
use crate::pathmap::PathMap;
use crate::storage::Storage;
use crate::text::lines_of;
use crate::text::tokens_of;
use crate::tree::empty_tree_v;
use crate::tree::load_files;
use crate::tree::tree_hash_v;
use crate::tree::tree_index_entries;
use crate::tree::tree_of_entries;
use crate::tree::tree_writes;
use crate::tree::Tree;

verus! {

/// Why a repository operation failed.
#[derive(Clone, Copy, PartialEq, Eq, Structural, Debug)]
pub enum RepoError {
    RepoAlreadyExists,
    IOError,
    RollbackError,
    IndexParsingError,
    CommitError,
    MergeError,
    CheckoutError,
}

/// The store with the staging index file present, created empty if need
/// be.
pub open spec fn with_index_file(f: Map<Seq<u8>, Seq<u8>>) -> Map<Seq<u8>, Seq<u8>> {
    if f.contains_key(index_path()) {
        f
    } else {
        f.insert(index_path(), Seq::empty())
    }
}

/// The commit the current branch ref names: the second line of the file
/// HEAD points at; an absent ref file means a fresh branch (no commit).
pub open spec fn head_last_commit(f: Map<Seq<u8>, Seq<u8>>) -> Result<Seq<u8>, ()> {
    if !f.contains_key(head_path()) {
        Err(())
    } else {
        let rp = f[head_path()];
        if !f.contains_key(rp) {
            Ok(Seq::empty())
        } else if lines_of(f[rp]).len() < 2 {
            Err(())
        } else {
            Ok(lines_of(f[rp])[1])
        }
    }
}

/// What initialising does: refuse an existing repository, else create
/// the marker and point HEAD at the default branch.
pub open spec fn init_spec(f: Map<Seq<u8>, Seq<u8>>) -> Result<
    Map<Seq<u8>, Seq<u8>>,
    (RepoError, Map<Seq<u8>, Seq<u8>>),
> {
    if f.contains_key(yit_root()) {
        Err((RepoError::RepoAlreadyExists, f))
    } else {
        Ok(f.insert(yit_root(), Seq::empty()).insert(head_path(), master_ref_path()))
    }
}

/// What adding does: load (creating if absent) the index, and unless the
/// path is already staged under its current content's digest, write the
/// blob object and rewrite the index with the path staged.
pub open spec fn add_spec(f0: Map<Seq<u8>, Seq<u8>>, path: Seq<u8>) -> Result<
    Map<Seq<u8>, Seq<u8>>,
    (RepoError, Map<Seq<u8>, Seq<u8>>),
> {
    let f1 = with_index_file(f0);
    let content = f1[index_path()];
    if tokens_of(content).len() % 2 == 1 {
        Err((RepoError::IndexParsingError, f1))
    } else {
        let es = index_entries_of(content);
        let m = map_of(es);
        let tracked_unchanged = m.contains_key(path) && !(f1.contains_key(path) && m[path]
            != blob_hash_of(f1[path]));
        if tracked_unchanged {
            Ok(f1)
        } else if !f1.contains_key(path) || !f1.contains_key(yit_root()) {
            Err((RepoError::IndexParsingError, f1))
        } else {
            let h = blob_hash_of(f1[path]);
            let es2 = insert_entry(es, path, h);
            Ok(
                with_object(f1, h, blob_store_content(f1[path])).insert(
                    index_path(),
                    index_file_rep(es2),
                ),
            )
        }
    }
}

/// The engine's handle: every operation works on this store, which the
/// surrounding application mirrors to a real directory.
pub struct Repository {
    pub files: Storage,
}

impl Repository {
    /// A repository over an empty store.
    pub fn new() -> (r: Repository)
        ensures
            r.files@ == Map::<Seq<u8>, Seq<u8>>::empty(),
    {
        Repository { files: Storage::new() }
    }

    /// Initialises the repository: creates the marker and points HEAD at
    /// the default branch; refuses a store that already holds one.
    pub fn init(&mut self) -> (r: Result<(), RepoError>)
        ensures
            ({
                let s = init_spec(old(self).files@);
                match r {
                    Ok(()) => s is Ok && final(self).files@ == s->Ok_0,
                    Err(e) => s is Err && s->Err_0 == (e, final(self).files@),
                }
            }),
    {
        let root = yit_root_vec();
        if self.files.contains(root.as_slice()) {
            return Err(RepoError::RepoAlreadyExists);
        }
        self.files.set(root, Vec::new());
        self.files.set(head_path_vec(), master_ref_path_vec());
        Ok(())
    }

    /// Stages a working file: hashes it, writes its blob object, and
    /// records the path in the index, unless it is already staged with
    /// the same digest.
    pub fn add(&mut self, file_path: &[u8]) -> (r: Result<(), RepoError>)
        ensures
            ({
                let s = add_spec(old(self).files@, file_path@);
                match r {
                    Ok(()) => s is Ok && final(self).files@ == s->Ok_0,
                    Err(e) => s is Err && s->Err_0 == (e, final(self).files@),
                }
            }),
    {
        let index_file_path = index_path_vec();
        let mut index_obj = match Index::new(&mut self.files, index_file_path) {
            Err(_) => {
                return Err(RepoError::IndexParsingError);
            },
            Ok(ix) => ix,
        };
        if index_obj.tracks_file(file_path) {
            if index_obj.has_different_hash(&self.files, file_path) {
                let p1 = crate::text::copy_range(file_path, 0, file_path.len());
                let p2 = crate::text::copy_range(file_path, 0, file_path.len());
                proof {
                    assert(p1@ =~= file_path@);
                    assert(p2@ =~= file_path@);
                }
                match index_obj.add_obj(&mut self.files, p1, p2, index_path_vec()) {
                    Err(_) => {
                        return Err(RepoError::IndexParsingError);
                    },
                    Ok(()) => {},
                }
            }
        } else {
            let p1 = crate::text::copy_range(file_path, 0, file_path.len());
            let p2 = crate::text::copy_range(file_path, 0, file_path.len());
            proof {
                assert(p1@ =~= file_path@);
                assert(p2@ =~= file_path@);
            }
            match index_obj.add_obj(&mut self.files, p1, p2, index_path_vec()) {
                Err(_) => {
                    return Err(RepoError::IndexParsingError);
                },
                Ok(()) => {},
            }
        }
        Ok(())
    }


    /// The contents of the HEAD file: the path of the current branch ref.
    fn get_current_head(&self) -> (r: Result<Vec<u8>, RepoError>)
        ensures
            match r {
                Ok(h) => self.files@.contains_key(head_path()) && h@ == self.files@[head_path()],
                Err(e) => e == RepoError::IOError && !self.files@.contains_key(head_path()),
            },
    {
        let hp = head_path_vec();
        match self.files.get(hp.as_slice()) {
            None => Err(RepoError::IOError),
            Some(c) => Ok(crate::text::copy_range(c.as_slice(), 0, c.len())),
        }
    }

    /// The commit the current branch ref names; an absent ref file means
    /// a fresh branch, reported as the empty hash.
    fn get_current_head_last_commit(&self) -> (r: Result<Vec<u8>, RepoError>)
        ensures
            match r {
                Ok(h) => head_last_commit(self.files@) == Ok::<Seq<u8>, ()>(h@),
                Err(e) => e == RepoError::IOError && head_last_commit(self.files@) is Err,
            },
    {
        let hp = head_path_vec();
        let ref_path = match self.files.get(hp.as_slice()) {
            None => {
                return Err(RepoError::IOError);
            },
            Some(c) => c,
        };
        let ref_content_bytes = match self.files.get(ref_path.as_slice()) {
            None => {
                return Ok(Vec::new());
            },
            Some(c) => c,
        };
        let lines = crate::text::split_lines(ref_content_bytes.as_slice());
        proof {
            assert(lines.deep_view() =~= lines_of(self.files@[self.files@[head_path()]]));
        }
        if lines.len() < 2 {
            return Err(RepoError::IOError);
        }
        let h = crate::text::copy_range(lines[1].as_slice(), 0, lines[1].len());
        proof {
            assert(h@ =~= lines_of(self.files@[self.files@[head_path()]])[1]);
        }
        Ok(h)
    }

    /// Creates or overwrites a ref file at the given path, pointing it at
    /// the current branch's last commit. The file is created before the
    /// commit is looked up, so on failure an empty ref file remains.
    fn change_head_last_commit(&mut self, path: Vec<u8>) -> (r: Result<(), RepoError>)
        ensures
            ({
                let s = change_head_spec(old(self).files@, path@);
                match r {
                    Ok(()) => s is Ok && final(self).files@ == s->Ok_0,
                    Err(e) => s is Err && s->Err_0 == (e, final(self).files@),
                }
            }),
    {
        let path2 = crate::text::copy_range(path.as_slice(), 0, path.len());
        proof {
            assert(path2@ =~= path@);
        }
        self.files.set(path2, Vec::new());
        let commit_hash = match self.get_current_head_last_commit() {
            Err(_) => {
                return Err(RepoError::IOError);
            },
            Ok(h) => h,
        };
        let mut content = crate::paths::ref_tag_vec();
        crate::text::append_bytes(&mut content, commit_hash.as_slice());
        proof {
            assert(content@ =~= ref_content(commit_hash@));
        }
        self.files.set(path, content);
        Ok(())
    }

    /// Commits the staged files on top of the current branch: the staged
    /// paths override the previous commit's snapshot, the combined tree
    /// is hashed and persisted, a commit object is written, the branch
    /// ref moves to it, and the staging index is cleared.
    pub fn commit(&mut self, message: &[u8]) -> (r: Result<(), RepoError>)
        ensures
            ({
                let s = commit_spec(old(self).files@, message@);
                match r {
                    Ok(()) => s is Ok && final(self).files@ == s->Ok_0,
                    Err(e) => s is Err && s->Err_0 == (e, final(self).files@),
                }
            }),
    {
        let ip = index_path_vec();
        if !self.files.contains(ip.as_slice()) {
            self.files.set(ip, Vec::new());
        }
        let ghost f1 = self.files@;
        proof {
            assert(f1 == with_index_file(old(self).files@));
        }
        let last_commit = match self.get_current_head_last_commit() {
            Err(_) => {
                return Err(RepoError::CommitError);
            },
            Ok(h) => h,
        };
        let index_obj = match Index::new(&mut self.files, index_path_vec()) {
            Err(_) => {
                return Err(RepoError::IndexParsingError);
            },
            Ok(ix) => ix,
        };
        proof {
            assert(self.files@ == f1);
        }
        let head = match self.get_current_head() {
            Err(_) => {
                return Err(RepoError::IOError);
            },
            Ok(h) => h,
        };
        let mut index_map = if self.files.contains(head.as_slice()) {
            let commit_tree = CommitNode::new(&self.files, last_commit);
            Tree::tree_to_index_map(&self.files, commit_tree.tree_hash.as_slice())
        } else {
            PathMap::new()
        };
        let ghost base = index_map@;
        proof {
            if f1.contains_key(f1[head_path()]) {
                assert(base == tree_index_entries(
                    f1,
                    resolve_commit(f1, head_last_commit(f1)->Ok_0, f1.dom().len()).tree_hash,
                ));
            } else {
                assert(base =~= Seq::<(Seq<u8>, Seq<u8>)>::empty());
            }
        }
        index_map.extend(&index_obj.index_map);
        let ghost entries = index_map@;
        if !crate::merge::check_wf_entries_pub(&index_map) {
            return Err(RepoError::CommitError);
        }
        let tr = Tree::new(index_map);
        proof {
            crate::tree::lemma_tree_of_entries_ok(entries);
        }
        let hash = match tr.hash_tree(&mut self.files, false) {
            Err(_) => {
                return Err(RepoError::CommitError);
            },
            Ok(h) => h,
        };
        let ghost f2 = self.files@;
        let parent_commit = match self.get_current_head_last_commit() {
            Err(_) => {
                return Err(RepoError::CommitError);
            },
            Ok(h) => h,
        };
        let mut parents: Vec<Vec<u8>> = Vec::new();
        parents.push(parent_commit);
        proof {
            assert(parents.deep_view() =~~= seq![head_last_commit(f2)->Ok_0]);
        }
        let commit_hash = match write_commit(&mut self.files, message, &parents, hash.as_slice()) {
            Err(_) => {
                return Err(RepoError::CommitError);
            },
            Ok(h) => h,
        };
        let mut ref_file = crate::paths::ref_tag_vec();
        crate::text::append_bytes(&mut ref_file, commit_hash.as_slice());
        proof {
            assert(ref_file@ =~= ref_content(commit_hash@));
        }
        self.files.set(head, ref_file);
        let ip2 = index_path_vec();
        self.files.remove(ip2.as_slice());
        Ok(())
    }

    /// Checks out a branch: creates its ref at the current commit if it
    /// is new, points HEAD at it, clears the staging index, and
    /// materialises the branch's tree into the working files.
    pub fn checkout(&mut self, branch_name: &[u8]) -> (r: Result<(), RepoError>)
        ensures
            ({
                let s = checkout_spec(old(self).files@, branch_name@);
                match r {
                    Ok(()) => s is Ok && final(self).files@ == s->Ok_0,
                    Err(e) => s is Err && s->Err_0 == (e, final(self).files@),
                }
            }),
    {
        let rp = branch_ref_path_of(branch_name);
        if !self.files.contains(rp.as_slice()) {
            let rp2 = crate::text::copy_range(rp.as_slice(), 0, rp.len());
            proof {
                assert(rp2@ =~= branch_ref_path(branch_name@));
            }
            match self.change_head_last_commit(rp2) {
                Err(_) => {
                    return Err(RepoError::CheckoutError);
                },
                Ok(()) => {},
            }
        }
        let rp3 = crate::text::copy_range(rp.as_slice(), 0, rp.len());
        proof {
            assert(rp3@ =~= branch_ref_path(branch_name@));
        }
        self.files.set(head_path_vec(), rp3);
        let ip = index_path_vec();
        if self.files.contains(ip.as_slice()) {
            let ip2 = index_path_vec();
            self.files.remove(ip2.as_slice());
        }
        let commit = match get_commit(&self.files, branch_name) {
            Err(_) => {
                return Err(RepoError::CheckoutError);
            },
            Ok(c) => c,
        };
        let commit_tree = CommitNode::new(&self.files, commit);
        let tree_index_map = Tree::tree_to_index_map(&self.files, commit_tree.tree_hash.as_slice());
        Tree::load_index_map(&mut self.files, &tree_index_map);
        Ok(())
    }

    /// Merges one branch into another: a fast-forward if the target's tip
    /// is already contained in the source's, a no-op if the source is
    /// already merged, and otherwise a three-way merge through the most
    /// recent common ancestor, committed with both tips as parents.
    pub fn merge(&mut self, branch: &[u8], into_branch: &[u8]) -> (r: Result<(), RepoError>)
        ensures
            ({
                let s = merge_spec(old(self).files@, branch@, into_branch@);
                match r {
                    Ok(()) => s is Ok && final(self).files@ == s->Ok_0,
                    Err(e) => s is Err && s->Err_0 == (e, final(self).files@),
                }
            }),
    {
        let commit = match get_commit(&self.files, branch) {
            Err(_) => {
                return Err(RepoError::MergeError);
            },
            Ok(c) => c,
        };
        let commit2 = crate::text::copy_range(commit.as_slice(), 0, commit.len());
        proof {
            assert(commit2@ =~= commit@);
        }
        let commit_tree = CommitNode::new(&self.files, commit2);
        let into_commit = match get_commit(&self.files, into_branch) {
            Err(_) => {
                return Err(RepoError::MergeError);
            },
            Ok(c) => c,
        };
        let into_commit2 = crate::text::copy_range(into_commit.as_slice(), 0, into_commit.len());
        proof {
            assert(into_commit2@ =~= into_commit@);
        }
        let into_commit_tree = CommitNode::new(&self.files, into_commit2);
        if commit_tree.is_parent(into_commit.as_slice()) {
            // fast-forward: move the target ref to the source tip
            match set_last_commit(&mut self.files, into_branch, commit.as_slice()) {
                Err(_) => {
                    return Err(RepoError::MergeError);
                },
                Ok(()) => {},
            }
            return Ok(());
        } else if into_commit_tree.is_parent(commit.as_slice()) {
            // already merged: nothing to do
            return Ok(());
        }
        let parent = match commit_tree.get_most_recent_parent_commit(&into_commit_tree) {
            None => {
                return Err(RepoError::CommitError);
            },
            Some(p) => p,
        };
        let parent_index_map = Tree::tree_to_index_map(&self.files, parent.tree_hash.as_slice());
        let branch_index_map = Tree::tree_to_index_map(
            &self.files,
            commit_tree.tree_hash.as_slice(),
        );
        let into_branch_index_map = Tree::tree_to_index_map(
            &self.files,
            into_commit_tree.tree_hash.as_slice(),
        );
        let new_tree = match three_fold(
            &mut self.files,
            &parent_index_map,
            &branch_index_map,
            &into_branch_index_map,
        ) {
            Err(_) => {
                return Err(RepoError::MergeError);
            },
            Ok(t) => t,
        };
        let message = merge_message_of(branch, into_branch);
        let mut parents: Vec<Vec<u8>> = Vec::new();
        parents.push(commit);
        parents.push(into_commit);
        proof {
            assert(parents.deep_view() =~~= seq![commit2@, into_commit2@]);
        }
        let commit_hash = match write_commit(
            &mut self.files,
            message.as_slice(),
            &parents,
            new_tree.as_slice(),
        ) {
            Err(_) => {
                return Err(RepoError::CommitError);
            },
            Ok(h) => h,
        };
        let mut ref_file = crate::paths::ref_tag_vec();
        crate::text::append_bytes(&mut ref_file, commit_hash.as_slice());
        proof {
            assert(ref_file@ =~= ref_content(commit_hash@));
        }
        let rp = branch_ref_path_of(into_branch);
        self.files.set(rp, ref_file);
        Ok(())
    }

    /// Diffs two branches: for every path in the first branch's tree that
    /// the second also holds, the differing lines of the two blobs,
    /// under a heading line naming the path.
    pub fn diff(&self, branch1: &[u8], branch2: &[u8]) -> (r: Result<Vec<u8>, RepoError>)
        ensures
            ({
                let s = diff_spec(self.files@, branch1@, branch2@);
                match r {
                    Ok(d) => s is Ok && s->Ok_0 == d@,
                    Err(e) => s is Err && s->Err_0 == e,
                }
            }),
    {
        let commit1 = match get_commit(&self.files, branch1) {
            Err(_) => {
                return Err(RepoError::MergeError);
            },
            Ok(c) => c,
        };
        let commit1_tree = CommitNode::new(&self.files, commit1);
        let commit2 = match get_commit(&self.files, branch2) {
            Err(_) => {
                return Err(RepoError::MergeError);
            },
            Ok(c) => c,
        };
        let commit2_tree = CommitNode::new(&self.files, commit2);
        let commit1_index_map = Tree::tree_to_index_map(
            &self.files,
            commit1_tree.tree_hash.as_slice(),
        );
        let commit2_index_map = Tree::tree_to_index_map(
            &self.files,
            commit2_tree.tree_hash.as_slice(),
        );
        let ghost es1 = commit1_index_map@;
        let ghost m2 = map_of(commit2_index_map@);
        let mut result: Vec<u8> = Vec::new();
        let n = commit1_index_map.len();
        let mut i: usize = 0;
        proof {
            assert(result@ + diff_fold(self.files@, es1, m2, 0) =~= diff_fold(
                self.files@,
                es1,
                m2,
                0,
            ));
        }
        while i < n
            invariant
                0 <= i <= n,
                n == es1.len(),
                es1 == commit1_index_map@,
                m2 == map_of(commit2_index_map@),
                diff_fold(self.files@, es1, m2, 0) == result@ + diff_fold(
                    self.files@,
                    es1,
                    m2,
                    i as int,
                ),
            decreases n - i,
        {
            let key = commit1_index_map.key_at(i);
            let ghost result_pre = result@;
            if commit2_index_map.contains_key(key.as_slice()) {
                let h1 = commit1_index_map.val_at(i);
                let h2 = match commit2_index_map.get(key.as_slice()) {
                    None => {
                        return Err(RepoError::MergeError);
                    },
                    Some(h) => h,
                };
                proof {
                    assert(h2@ == m2[es1[i as int].0]);
                }
                let d: Vec<u8> = if h1.len() >= 2 && h2.len() >= 2 {
                    get_diff_files(&self.files, h1.as_slice(), h2.as_slice())
                } else {
                    Vec::new()
                };
                crate::text::append_bytes(&mut result, key.as_slice());
                result.push(58);
                result.push(32);
                result.push(10);
                crate::text::append_bytes(&mut result, d.as_slice());
                proof {
                    assert(result@ =~= result_pre + (es1[i as int].0 + seq![58u8, 32u8, 10u8]
                        + diff_entry(self.files@, es1[i as int].1, m2[es1[i as int].0])));
                    assert(result_pre + (es1[i as int].0 + seq![58u8, 32u8, 10u8] + diff_entry(
                        self.files@,
                        es1[i as int].1,
                        m2[es1[i as int].0],
                    )) + diff_fold(self.files@, es1, m2, i + 1) =~= result_pre + diff_fold(
                        self.files@,
                        es1,
                        m2,
                        i as int,
                    ));
                }
            }
            i = i + 1;
        }
        proof {
            assert(diff_fold(self.files@, es1, m2, n as int) =~= Seq::<u8>::empty());
            assert(result@ + Seq::<u8>::empty() =~= result@);
        }
        Ok(result)
    }
}

/// `"Merge <branch> into <into>"`: the message of a three-way merge
/// commit.
pub open spec fn merge_message(branch: Seq<u8>, into_branch: Seq<u8>) -> Seq<u8> {
    seq![77u8, 101u8, 114u8, 103u8, 101u8, 32u8] + branch + seq![
        32u8,
        105u8,
        110u8,
        116u8,
        111u8,
        32u8,
    ] + into_branch
}

/// Builds the merge commit message.
pub fn merge_message_of(branch: &[u8], into_branch: &[u8]) -> (r: Vec<u8>)
    ensures
        r@ == merge_message(branch@, into_branch@),
{
    let mut v: Vec<u8> = Vec::new();
    v.push(77);
    v.push(101);
    v.push(114);
    v.push(103);
    v.push(101);
    v.push(32);
    crate::text::append_bytes(&mut v, branch);
    v.push(32);
    v.push(105);
    v.push(110);
    v.push(116);
    v.push(111);
    v.push(32);
    crate::text::append_bytes(&mut v, into_branch);
    proof {
        assert(v@ =~= merge_message(branch@, into_branch@));
    }
    v
}

/// What repointing a ref at the current commit does; the ref file is
/// created empty first, so it remains on failure.
pub open spec fn change_head_spec(f: Map<Seq<u8>, Seq<u8>>, path: Seq<u8>) -> Result<
    Map<Seq<u8>, Seq<u8>>,
    (RepoError, Map<Seq<u8>, Seq<u8>>),
> {
    let f1 = f.insert(path, Seq::empty());
    match head_last_commit(f1) {
        Err(()) => Err((RepoError::IOError, f1)),
        Ok(h) => Ok(f1.insert(path, ref_content(h))),
    }
}

/// What committing does, step by step.
pub open spec fn commit_spec(f0: Map<Seq<u8>, Seq<u8>>, message: Seq<u8>) -> Result<
    Map<Seq<u8>, Seq<u8>>,
    (RepoError, Map<Seq<u8>, Seq<u8>>),
> {
    let f1 = with_index_file(f0);
    match head_last_commit(f1) {
        Err(()) => Err((RepoError::CommitError, f1)),
        Ok(last_commit) => {
            if tokens_of(f1[index_path()]).len() % 2 == 1 {
                Err((RepoError::IndexParsingError, f1))
            } else {
                let head = f1[head_path()];
                let base = if f1.contains_key(head) {
                    tree_index_entries(
                        f1,
                        resolve_commit(f1, last_commit, f1.dom().len()).tree_hash,
                    )
                } else {
                    Seq::<(Seq<u8>, Seq<u8>)>::empty()
                };
                let entries = extend_entries(base, index_entries_of(f1[index_path()]));
                if !entries_paths_wf(entries) {
                    Err((RepoError::CommitError, f1))
                } else {
                    let t = tree_of_entries(entries);
                    let th = tree_hash_v(t, f1);
                    let f2 = f1.union_prefer_right(tree_writes(t, f1));
                    match head_last_commit(f2) {
                        Err(()) => Err((RepoError::CommitError, f2)),
                        Ok(parent_commit) => {
                            let ch = commit_hash_of(message, seq![parent_commit], th);
                            let f3 = f2.insert(
                                object_path(ch),
                                deflate_of(commit_content(message, seq![parent_commit], th)),
                            );
                            let f4 = f3.insert(f2[head_path()], ref_content(ch));
                            Ok(f4.remove(index_path()))
                        },
                    }
                }
            }
        },
    }
}

/// What checking out does, step by step.
pub open spec fn checkout_spec(f0: Map<Seq<u8>, Seq<u8>>, branch: Seq<u8>) -> Result<
    Map<Seq<u8>, Seq<u8>>,
    (RepoError, Map<Seq<u8>, Seq<u8>>),
> {
    let rp = branch_ref_path(branch);
    let step1: Result<Map<Seq<u8>, Seq<u8>>, (RepoError, Map<Seq<u8>, Seq<u8>>)> = if !f0.contains_key(rp) {
        match change_head_spec(f0, rp) {
            Err(p) => Err((RepoError::CheckoutError, p.1)),
            Ok(f) => Ok(f),
        }
    } else {
        Ok(f0)
    };
    match step1 {
        Err(p) => Err(p),
        Ok(f1) => {
            let f2 = f1.insert(head_path(), rp);
            let f3 = if f2.contains_key(index_path()) {
                f2.remove(index_path())
            } else {
                f2
            };
            if !(f3.contains_key(rp) && lines_of(f3[rp]).len() >= 2) {
                Err((RepoError::CheckoutError, f3))
            } else {
                let commit = lines_of(f3[rp])[1];
                let node = resolve_commit(f3, commit, f3.dom().len());
                let entries = tree_index_entries(f3, node.tree_hash);
                Ok(load_files(f3, entries))
            }
        },
    }
}

/// What merging does, step by step.
pub open spec fn merge_spec(f0: Map<Seq<u8>, Seq<u8>>, branch: Seq<u8>, into_branch: Seq<u8>) -> Result<
    Map<Seq<u8>, Seq<u8>>,
    (RepoError, Map<Seq<u8>, Seq<u8>>),
> {
    let rp_b = branch_ref_path(branch);
    if !(f0.contains_key(rp_b) && lines_of(f0[rp_b]).len() >= 2) {
        Err((RepoError::MergeError, f0))
    } else {
        let commit = lines_of(f0[rp_b])[1];
        let ctree = resolve_commit(f0, commit, f0.dom().len());
        let rp_i = branch_ref_path(into_branch);
        if !(f0.contains_key(rp_i) && lines_of(f0[rp_i]).len() >= 2) {
            Err((RepoError::MergeError, f0))
        } else {
            let into_commit = lines_of(f0[rp_i])[1];
            let itree = resolve_commit(f0, into_commit, f0.dom().len());
            if is_ancestor(ctree, into_commit) {
                Ok(f0.insert(rp_i, ref_content(commit)))
            } else if is_ancestor(itree, commit) {
                Ok(f0)
            } else {
                match mrca(ctree, itree) {
                    None => Err((RepoError::CommitError, f0)),
                    Some(parent) => {
                        let pes = tree_index_entries(f0, parent.tree_hash);
                        let bes = tree_index_entries(f0, ctree.tree_hash);
                        let ies = tree_index_entries(f0, itree.tree_hash);
                        let pmap = map_of(pes);
                        let wf = entries_paths_wf(bes) && entries_paths_wf(ies);
                        let clash = has_conflicting_add(bes, pmap, map_of(ies))
                            || has_conflicting_add(ies, pmap, map_of(bes));
                        if !wf || clash {
                            Err((RepoError::MergeError, f0))
                        } else {
                            let t0 = add_new_keys(
                                add_new_keys(empty_tree_v(seq![47u8]), pmap, bes, 0),
                                pmap,
                                ies,
                                0,
                            );
                            match merge_walk(pmap, map_of(ies), bes, 0, f0, t0) {
                                Err(p) => Err((RepoError::MergeError, p.1)),
                                Ok(p) => {
                                    let th = tree_hash_v(p.1, p.0);
                                    let f2 = p.0.union_prefer_right(tree_writes(p.1, p.0));
                                    let msg = merge_message(branch, into_branch);
                                    let ch = commit_hash_of(msg, seq![commit, into_commit], th);
                                    let f3 = f2.insert(
                                        object_path(ch),
                                        deflate_of(
                                            commit_content(msg, seq![commit, into_commit], th),
                                        ),
                                    );
                                    Ok(f3.insert(rp_i, ref_content(ch)))
                                },
                            }
                        }
                    },
                }
            }
        }
    }
}

/// One diff section: the differing lines of the two blobs, or nothing if
/// either cannot be read.
pub open spec fn diff_entry(f: Map<Seq<u8>, Seq<u8>>, h1: Seq<u8>, h2: Seq<u8>) -> Seq<u8> {
    if h1.len() >= 2 && h2.len() >= 2 && object_readable(f, h1) && object_readable(f, h2) {
        diff_of(object_content(f, h1), object_content(f, h2))
    } else {
        Seq::<u8>::empty()
    }
}

/// The report of a branch diff from entry `i` on: for each path both
/// trees hold, a heading line and the blobs' differing lines.
pub open spec fn diff_fold(
    f: Map<Seq<u8>, Seq<u8>>,
    es1: Seq<(Seq<u8>, Seq<u8>)>,
    m2: Map<Seq<u8>, Seq<u8>>,
    i: int,
) -> Seq<u8>
    decreases es1.len() - i,
{
    if i < 0 || i >= es1.len() {
        seq![]
    } else {
        let k = es1[i].0;
        if m2.contains_key(k) {
            k + seq![58u8, 32u8, 10u8] + diff_entry(f, es1[i].1, m2[k]) + diff_fold(
                f,
                es1,
                m2,
                i + 1,
            )
        } else {
            diff_fold(f, es1, m2, i + 1)
        }
    }
}

/// What diffing does: both refs read, both trees flattened, and the
/// common paths' blobs compared.
pub open spec fn diff_spec(f: Map<Seq<u8>, Seq<u8>>, branch1: Seq<u8>, branch2: Seq<u8>) -> Result<
    Seq<u8>,
    RepoError,
> {
    let rp1 = branch_ref_path(branch1);
    if !(f.contains_key(rp1) && lines_of(f[rp1]).len() >= 2) {
        Err(RepoError::MergeError)
    } else {
        let c1 = lines_of(f[rp1])[1];
        let t1 = resolve_commit(f, c1, f.dom().len());
        let rp2 = branch_ref_path(branch2);
        if !(f.contains_key(rp2) && lines_of(f[rp2]).len() >= 2) {
            Err(RepoError::MergeError)
        } else {
            let c2 = lines_of(f[rp2])[1];
            let t2 = resolve_commit(f, c2, f.dom().len());
            let es1 = tree_index_entries(f, t1.tree_hash);
            let es2 = tree_index_entries(f, t2.tree_hash);
            Ok(diff_fold(f, es1, map_of(es2), 0))
        }
    }
}

} // verus!
