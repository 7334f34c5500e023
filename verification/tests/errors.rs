//! Each failure kind produced by an input that earns it.

use yit::index::Index;
use yit::merge::three_fold;
use yit::merge::MergeError;
use yit::pathmap::PathMap;
use yit::repo::RepoError;
use yit::repo::Repository;
use yit::storage::Storage;

fn b(s: &str) -> Vec<u8> {
    s.as_bytes().to_vec()
}

#[test]
fn malformed_index_is_rejected() {
    let mut store = Storage::new();
    store.set(b(".yit/index"), b("path-without-a-hash"));
    let r = Index::new(&mut store, b(".yit/index"));
    assert!(matches!(r, Err(yit::index::IndexError::IOError)));
}

#[test]
fn concurrent_addition_aborts_the_merge() {
    let mut store = Storage::new();
    store.set(b(".yit"), Vec::new());
    let parent = PathMap::new();
    let mut branch = PathMap::new();
    branch.insert(b("newfile"), b("aaaaaaaaaaaaaaaaaaaaaaaaaaaaaaaaaaaaaaaa"));
    let mut into = PathMap::new();
    into.insert(b("newfile"), b("bbbbbbbbbbbbbbbbbbbbbbbbbbbbbbbbbbbbbbbb"));
    let r = three_fold(&mut store, &parent, &branch, &into);
    assert!(matches!(r, Err(MergeError::DoesNotHaveOrigin)));
}

#[test]
fn missing_blob_fails_the_content_merge() {
    let store = Storage::new();
    let fake = b("0000000000000000000000000000000000000000");
    let r = yit::merge::merge_blobs(&store, &fake, &fake, &fake);
    assert!(matches!(r, Err(MergeError::IOError)));
}

#[test]
fn checkout_without_history_fails() {
    let mut repo = Repository::new();
    // no init: there is no HEAD to seed the new branch from
    let r = repo.checkout(b"somewhere");
    assert!(matches!(r, Err(RepoError::CheckoutError)));
}

#[test]
fn conflicting_edits_fail_the_merge() {
    let mut repo = Repository::new();
    repo.files.set(b("f"), b("x"));
    assert!(repo.init().is_ok());
    assert!(repo.add(b"f").is_ok());
    assert!(repo.commit(b"base").is_ok());
    assert!(repo.checkout(b"side").is_ok());
    repo.files.set(b("f"), b("y"));
    assert!(repo.add(b"f").is_ok());
    assert!(repo.commit(b"side edit").is_ok());
    assert!(repo.checkout(b"master").is_ok());
    repo.files.set(b("f"), b("z"));
    assert!(repo.add(b"f").is_ok());
    assert!(repo.commit(b"master edit").is_ok());
    let r = repo.merge(b"master", b"side");
    assert!(matches!(r, Err(RepoError::MergeError)));
}

#[test]
fn merge_of_unknown_branch_fails() {
    let mut repo = Repository::new();
    assert!(repo.init().is_ok());
    let r = repo.merge(b"ghost", b"master");
    assert!(matches!(r, Err(RepoError::MergeError)));
}
