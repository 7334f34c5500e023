//! Blob objects: hashing a working file and writing the compressed,
//! type-tagged object into the store.

use vstd::prelude::*;

use crate::codec::deflate;
use crate::codec::deflate_of;
use crate::codec::inflate_of;
use crate::digest::sha1_hex;
use crate::digest::sha1_hex_of;
use crate::paths::blob_tag;
use crate::paths::blob_tag_vec;
use crate::paths::object_path;
use crate::paths::object_path_of;
use crate::paths::yit_root;
use crate::paths::yit_root_vec;
use crate::storage::Storage;
use crate::text::append_bytes;
use crate::text::dec_rep;
use crate::text::to_decimal;

verus! {

/// Why an object could not be written.
#[derive(Clone, Copy, PartialEq, Eq, Structural, Debug)]
pub enum RepositoryError {
    IOError,
    RepoDoesNotExist,
}

/// Why a working file could not be hashed.
#[derive(Clone, Copy, PartialEq, Eq, Structural, Debug)]
pub enum HashError {
    IOError,
}

/// The stored form of a blob object: the type tag, then the content.
pub open spec fn blob_store_content(content: Seq<u8>) -> Seq<u8> {
    blob_tag() + content
}

/// The byte string a blob's digest is computed over: the type tag, the
/// content size in decimal, a NUL, then the content.
pub open spec fn blob_hash_input(content: Seq<u8>) -> Seq<u8> {
    blob_tag() + dec_rep(content.len()) + seq![0u8] + content
}

/// The digest of a blob with the given content.
pub open spec fn blob_hash_of(content: Seq<u8>) -> Seq<u8> {
    sha1_hex_of(blob_hash_input(content))
}

/// What the store holds after an object write: the compressed, tagged
/// bytes filed under the digest's derived path.
pub open spec fn with_object(
    files: Map<Seq<u8>, Seq<u8>>,
    hash: Seq<u8>,
    tagged: Seq<u8>,
) -> Map<Seq<u8>, Seq<u8>> {
    files.insert(object_path(hash), deflate_of(tagged))
}

/// Compresses the type-tagged blob content and files it under the hash's
/// derived path. Fails if the repository does not exist; the hash is
/// trusted to belong to the content, as in every content-addressed write.
pub fn write_object(store: &mut Storage, hash: &[u8], content: &[u8]) -> (r: Result<
    (),
    RepositoryError,
>)
    requires
        hash@.len() >= 2,
    ensures
        match r {
            Ok(()) => {
                &&& old(store)@.contains_key(yit_root())
                &&& final(store)@ == with_object(old(store)@, hash@, blob_store_content(content@))
                &&& inflate_of(deflate_of(blob_store_content(content@))) == Some(
                    blob_store_content(content@),
                )
            },
            Err(e) => {
                &&& e == RepositoryError::RepoDoesNotExist
                &&& !old(store)@.contains_key(yit_root())
                &&& final(store)@ == old(store)@
            },
        },
{
    let root = yit_root_vec();
    if !store.contains(root.as_slice()) {
        return Err(RepositoryError::RepoDoesNotExist);
    }
    let mut tagged = blob_tag_vec();
    append_bytes(&mut tagged, content);
    let compressed = deflate(tagged.as_slice());
    let path = object_path_of(hash);
    store.set(path, compressed);
    Ok(())
}

/// Reads a working file and computes its blob digest, without writing.
pub fn hash_file(store: &Storage, path: &[u8]) -> (r: Option<Vec<u8>>)
    ensures
        match r {
            Some(h) => {
                &&& store@.contains_key(path@)
                &&& h@ == blob_hash_of(store@[path@])
                &&& h@.len() == 40
            },
            None => !store@.contains_key(path@),
        },
{
    let content = match store.get(path) {
        None => {
            return None;
        },
        Some(c) => c,
    };
    let mut to_hash = blob_tag_vec();
    let size = to_decimal(content.len());
    append_bytes(&mut to_hash, size.as_slice());
    to_hash.push(0);
    append_bytes(&mut to_hash, content.as_slice());
    proof {
        assert(to_hash@ =~= blob_hash_input(store@[path@]));
    }
    Some(sha1_hex(to_hash.as_slice()))
}

/// A reference to a working file, hashed on demand from the store.
pub struct Blob {
    pub file_path: Vec<u8>,
}

impl View for Blob {
    type V = Seq<u8>;

    open spec fn view(&self) -> Seq<u8> {
        self.file_path@
    }
}

impl Blob {
    pub fn new(file_path: Vec<u8>) -> (b: Blob)
        ensures
            b@ == file_path@,
    {
        Blob { file_path }
    }

    /// Reads the working file, computes its blob digest, and, when asked,
    /// also writes the blob object into the store.
    pub fn hash_object(&self, store: &mut Storage, write: bool) -> (r: Result<Vec<u8>, HashError>)
        ensures
            match r {
                Ok(h) => {
                    &&& old(store)@.contains_key(self@)
                    &&& h@ == blob_hash_of(old(store)@[self@])
                    &&& h@.len() == 40
                    &&& (write ==> old(store)@.contains_key(yit_root()) && final(store)@
                        == with_object(
                        old(store)@,
                        h@,
                        blob_store_content(old(store)@[self@]),
                    ) && inflate_of(deflate_of(blob_store_content(old(store)@[self@]))) == Some(
                        blob_store_content(old(store)@[self@]),
                    ))
                    &&& (!write ==> final(store)@ == old(store)@)
                },
                Err(_) => {
                    &&& final(store)@ == old(store)@
                    &&& (!old(store)@.contains_key(self@) || (write && !old(store)@.contains_key(
                        yit_root(),
                    )))
                },
            },
    {
        let hash = match hash_file(store, self.file_path.as_slice()) {
            None => {
                return Err(HashError::IOError);
            },
            Some(h) => h,
        };
        if write {
            let content = match store.get(self.file_path.as_slice()) {
                None => {
                    return Err(HashError::IOError);
                },
                Some(c) => crate::text::copy_range(c.as_slice(), 0, c.len()),
            };
            proof {
                assert(content@ =~= old(store)@[self@]);
            }
            match write_object(store, hash.as_slice(), content.as_slice()) {
                Err(_) => Err(HashError::IOError),
                Ok(()) => Ok(hash),
            }
        } else {
            Ok(hash)
        }
    }
}

} // verus!
