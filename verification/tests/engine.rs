//! The engine's pieces in isolation: hashing, object storage, the index
//! file, the line merge, and the diff.

use yit::blob::Blob;
use yit::merge::merge_blobs;
use yit::merge::MergeError;
use yit::storage::Storage;

fn b(s: &str) -> Vec<u8> {
    s.as_bytes().to_vec()
}

/// Writes a blob object for each content and returns the digests.
fn store_blobs(store: &mut Storage, contents: &[&str]) -> Vec<Vec<u8>> {
    store.set(b(".yit"), Vec::new());
    let mut hashes = Vec::new();
    for (i, c) in contents.iter().enumerate() {
        let path = format!("scratch{}", i).into_bytes();
        store.set(path.clone(), b(c));
        let blob = Blob::new(path);
        hashes.push(blob.hash_object(store, true).unwrap());
    }
    hashes
}

#[test]
fn hashing_is_deterministic() {
    let mut store = Storage::new();
    store.set(b("f"), b("same bytes"));
    let h1 = yit::blob::hash_file(&store, b"f").unwrap();
    let h2 = yit::blob::hash_file(&store, b"f").unwrap();
    assert_eq!(h1, h2);
    assert_eq!(h1.len(), 40);
    store.set(b("f"), b("same byteS"));
    let h3 = yit::blob::hash_file(&store, b"f").unwrap();
    assert_ne!(h1, h3);
}

#[test]
fn object_round_trip() {
    let mut store = Storage::new();
    store.set(b(".yit"), Vec::new());
    store.set(b("f"), b("hello\nworld"));
    let blob = Blob::new(b("f"));
    let h = blob.hash_object(&mut store, true).unwrap();
    let back = yit::file::cat_file(&store, h.as_slice()).unwrap();
    assert_eq!(back.as_slice(), b"hello\nworld");
}

#[test]
fn write_object_needs_a_repository() {
    let mut store = Storage::new();
    let r = yit::blob::write_object(&mut store, b"abcdef", b"payload");
    assert!(matches!(r, Err(yit::blob::RepositoryError::RepoDoesNotExist)));
}

#[test]
fn merge_blobs_conflict_on_divergent_line() {
    let mut store = Storage::new();
    let hashes = store_blobs(&mut store, &["x", "y", "z"]);
    let r = merge_blobs(
        &store,
        hashes[0].as_slice(),
        hashes[1].as_slice(),
        hashes[2].as_slice(),
    );
    assert!(matches!(r, Err(MergeError::Conflict)));
}

#[test]
fn merge_blobs_takes_the_single_sided_edit() {
    let mut store = Storage::new();
    let hashes = store_blobs(&mut store, &["a\nb", "a\nb", "a\nc"]);
    let r = merge_blobs(
        &store,
        hashes[0].as_slice(),
        hashes[1].as_slice(),
        hashes[2].as_slice(),
    );
    assert_eq!(r.unwrap().as_slice(), b"a\nc\n");
}

#[test]
fn merge_blobs_keeps_agreeing_lines() {
    let mut store = Storage::new();
    let hashes = store_blobs(&mut store, &["a", "a\nb", "a\nb"]);
    let r = merge_blobs(
        &store,
        hashes[0].as_slice(),
        hashes[1].as_slice(),
        hashes[2].as_slice(),
    );
    assert_eq!(r.unwrap().as_slice(), b"a\nb\n");
}

#[test]
fn diff_emits_both_sides_and_the_overhang() {
    let mut store = Storage::new();
    let hashes = store_blobs(&mut store, &["a\nb\nc", "a\nx"]);
    let d = yit::diff::get_diff_files(&store, hashes[0].as_slice(), hashes[1].as_slice());
    assert_eq!(d.as_slice(), b"b\nx\nc\n");
}

#[test]
fn index_survives_a_reload() {
    let mut store = Storage::new();
    store.set(b(".yit"), Vec::new());
    store.set(b("p"), b("payload"));
    let mut ix = yit::index::Index::new(&mut store, b(".yit/index")).unwrap();
    assert!(!ix.tracks_file(b"p"));
    ix.add_obj(&mut store, b("p"), b("p"), b(".yit/index")).unwrap();
    let ix2 = yit::index::Index::new(&mut store, b(".yit/index")).unwrap();
    assert!(ix2.tracks_file(b"p"));
    assert!(!ix2.has_different_hash(&store, b"p"));
    store.set(b("p"), b("changed payload"));
    assert!(ix2.has_different_hash(&store, b"p"));
}

#[test]
fn decimal_rendering() {
    assert_eq!(yit::text::to_decimal(0), b"0");
    assert_eq!(yit::text::to_decimal(42), b"42");
    assert_eq!(yit::text::to_decimal(90210), b"90210");
}
