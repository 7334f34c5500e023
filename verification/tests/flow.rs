//! The end-to-end flow: init, add, commit, branch, merge, diff, and the
//! engine-level properties exercised on concrete repositories.

use yit::branch::get_commit;
use yit::commit::CommitNode;
use yit::repo::Repository;
use yit::tree::Tree;

fn b(s: &str) -> Vec<u8> {
    s.as_bytes().to_vec()
}

#[test]
fn test_flow() {
    let mut repo = Repository::new();
    // the working files the scenario starts from
    repo.files.set(b("foobar"), b("test content"));
    repo.files.set(b("ehoo/daaa"), b("another test"));
    repo.files.set(b("src/tree.rs"), b("fn rust_code() {}"));

    let _ = repo.init();
    let res = repo.add(b"foobar");
    assert_eq!(true, res.is_ok());
    let res = repo.commit(b"message master 1");
    assert_eq!(true, res.is_ok());
    let res = repo.checkout(b"branch1");
    assert_eq!(true, res.is_ok());
    let res = repo.add(b"ehoo/daaa");
    assert_eq!(true, res.is_ok());
    let res = repo.commit(b"message branch1");
    assert_eq!(true, res.is_ok());
    let res = repo.checkout(b"master");
    assert_eq!(true, res.is_ok());
    let res = repo.add(b"src/tree.rs");
    assert_eq!(true, res.is_ok());
    let res = repo.commit(b"message master 2");
    assert_eq!(true, res.is_ok());
    let res = repo.diff(b"master", b"branch1");
    assert_eq!(true, res.is_ok());
    let res = repo.merge(b"master", b"branch1");
    assert_eq!(true, res.is_ok());

    // the merge went the three-way route: the target ref moved to a new
    // commit that is neither tip
    let master_tip = get_commit(&repo.files, b"master").unwrap();
    let merged_tip = get_commit(&repo.files, b"branch1").unwrap();
    assert_ne!(master_tip, merged_tip);
    // and its tree carries all three files
    let node = CommitNode::new(&repo.files, merged_tip);
    let map = Tree::tree_to_index_map(&repo.files, node.tree_hash.as_slice());
    assert!(map.get(b"foobar").is_some());
    assert!(map.get(b"ehoo/daaa").is_some());
    assert!(map.get(b"src/tree.rs").is_some());

    // checking out the merged branch materialises all three files
    let res = repo.checkout(b"branch1");
    assert_eq!(true, res.is_ok());
    // the common file was rewritten by the line merge, which joins the
    // kept lines with trailing newlines
    assert_eq!(repo.files.get(b"foobar").unwrap().as_slice(), b"test content\n");
    assert_eq!(repo.files.get(b"ehoo/daaa").unwrap().as_slice(), b"another test");
    assert_eq!(repo.files.get(b"src/tree.rs").unwrap().as_slice(), b"fn rust_code() {}");
}

#[test]
fn init_twice_is_refused() {
    let mut repo = Repository::new();
    assert!(repo.init().is_ok());
    let second = repo.init();
    assert!(matches!(second, Err(yit::repo::RepoError::RepoAlreadyExists)));
}

#[test]
fn add_is_idempotent() {
    let mut repo = Repository::new();
    repo.files.set(b("letter"), b("alpha"));
    assert!(repo.init().is_ok());
    assert!(repo.add(b"letter").is_ok());
    let count_after_first = repo.files.file_count();
    let index_after_first = repo.files.get(b".yit/index").unwrap().clone();
    assert!(repo.add(b"letter").is_ok());
    assert_eq!(repo.files.file_count(), count_after_first);
    assert_eq!(repo.files.get(b".yit/index").unwrap(), &index_after_first);
}

#[test]
fn fast_forward_merge_moves_ref_only() {
    let mut repo = Repository::new();
    repo.files.set(b("one"), b("first"));
    repo.files.set(b("two"), b("second"));
    assert!(repo.init().is_ok());
    assert!(repo.add(b"one").is_ok());
    assert!(repo.commit(b"base").is_ok());
    // branch off at the base commit, then advance master
    assert!(repo.checkout(b"feature").is_ok());
    assert!(repo.checkout(b"master").is_ok());
    assert!(repo.add(b"two").is_ok());
    assert!(repo.commit(b"ahead").is_ok());
    let master_tip = get_commit(&repo.files, b"master").unwrap();
    let count_before = repo.files.file_count();
    // feature's tip is an ancestor of master's tip: a fast-forward
    assert!(repo.merge(b"master", b"feature").is_ok());
    assert_eq!(get_commit(&repo.files, b"feature").unwrap(), master_tip);
    // no new object was written: only the existing ref file changed
    assert_eq!(repo.files.file_count(), count_before);
}

#[test]
fn tree_round_trip_recovers_index() {
    let mut repo = Repository::new();
    repo.files.set(b("alpha"), b("content a"));
    repo.files.set(b("dir/beta"), b("content b"));
    assert!(repo.init().is_ok());
    assert!(repo.add(b"alpha").is_ok());
    assert!(repo.add(b"dir/beta").is_ok());
    assert!(repo.commit(b"snapshot").is_ok());
    let tip = get_commit(&repo.files, b"master").unwrap();
    let node = CommitNode::new(&repo.files, tip);
    let map = Tree::tree_to_index_map(&repo.files, node.tree_hash.as_slice());
    assert_eq!(map.len(), 2);
    let ha = yit::blob::hash_file(&repo.files, b"alpha").unwrap();
    let hb = yit::blob::hash_file(&repo.files, b"dir/beta").unwrap();
    assert_eq!(map.get(b"alpha").unwrap(), &ha);
    assert_eq!(map.get(b"dir/beta").unwrap(), &hb);
}

#[test]
fn checkout_materialises_stored_blobs() {
    let mut repo = Repository::new();
    repo.files.set(b("keep"), b("original"));
    assert!(repo.init().is_ok());
    assert!(repo.add(b"keep").is_ok());
    assert!(repo.commit(b"first").is_ok());
    // clobber the working file, then check the branch out again
    repo.files.set(b("keep"), b("scribbled over"));
    assert!(repo.checkout(b"master").is_ok());
    assert_eq!(repo.files.get(b"keep").unwrap().as_slice(), b"original");
}

#[test]
fn diff_reports_differing_lines() {
    let mut repo = Repository::new();
    repo.files.set(b("f"), b("a\nb"));
    assert!(repo.init().is_ok());
    assert!(repo.add(b"f").is_ok());
    assert!(repo.commit(b"left").is_ok());
    assert!(repo.checkout(b"other").is_ok());
    repo.files.set(b("f"), b("a\nc"));
    assert!(repo.add(b"f").is_ok());
    assert!(repo.commit(b"right").is_ok());
    let d = repo.diff(b"master", b"other").unwrap();
    assert_eq!(d.as_slice(), b"f: \nb\nc\n");
}

#[test]
fn leaf_naming_a_directory_keeps_its_full_path() {
    // "a/b/c" makes "a/b" a directory; the file "a/b" must still be
    // recorded and materialised under its full path
    let mut repo = Repository::new();
    repo.files.set(b("a/b/c"), b("deep"));
    repo.files.set(b("a/b"), b("shallow"));
    assert!(repo.init().is_ok());
    assert!(repo.add(b"a/b/c").is_ok());
    assert!(repo.add(b"a/b").is_ok());
    assert!(repo.commit(b"both").is_ok());
    let tip = get_commit(&repo.files, b"master").unwrap();
    let node = CommitNode::new(&repo.files, tip);
    let map = Tree::tree_to_index_map(&repo.files, node.tree_hash.as_slice());
    assert_eq!(map.len(), 2);
    let h_deep = yit::blob::hash_file(&repo.files, b"a/b/c").unwrap();
    let h_shallow = yit::blob::hash_file(&repo.files, b"a/b").unwrap();
    assert_eq!(map.get(b"a/b/c").unwrap(), &h_deep);
    assert_eq!(map.get(b"a/b").unwrap(), &h_shallow);
    // and checkout restores both from their blobs
    repo.files.set(b("a/b"), b("scribbled"));
    assert!(repo.checkout(b"master").is_ok());
    assert_eq!(repo.files.get(b"a/b").unwrap().as_slice(), b"shallow");
}
