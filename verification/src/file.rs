//! Reading an object back: decompress, strip the type tag line, return
//! the remainder.

use vstd::prelude::*;

use crate::codec::inflate;
use crate::codec::inflate_of;
use crate::paths::object_path;
use crate::paths::object_path_of;
use crate::storage::Storage;
use crate::text::lemma_first_byte_at;
use crate::text::nl;
use crate::text::strip_first_line;
use crate::text::strip_first_line_of;

verus! {

/// Why an object could not be read back.
#[derive(Clone, Copy, PartialEq, Eq, Structural, Debug)]
pub enum ParseError {
    IOError,
}

/// Whether the store holds, at the digest's derived path, bytes that
/// decompress.
pub open spec fn object_readable(files: Map<Seq<u8>, Seq<u8>>, hash: Seq<u8>) -> bool {
    &&& files.contains_key(object_path(hash))
    &&& inflate_of(files[object_path(hash)]) is Some
}

/// The object's content: what follows its type tag line.
pub open spec fn object_content(files: Map<Seq<u8>, Seq<u8>>, hash: Seq<u8>) -> Seq<u8> {
    strip_first_line(inflate_of(files[object_path(hash)]).unwrap())
}

/// Reads the object with the given digest: decompresses the stored bytes
/// and strips the leading type tag line.
pub fn cat_file(store: &Storage, hash: &[u8]) -> (r: Result<Vec<u8>, ParseError>)
    requires
        hash@.len() >= 2,
    ensures
        match r {
            Ok(c) => object_readable(store@, hash@) && c@ == object_content(store@, hash@),
            Err(_) => !object_readable(store@, hash@),
        },
{
    let path = object_path_of(hash);
    let stored = match store.get(path.as_slice()) {
        None => {
            return Err(ParseError::IOError);
        },
        Some(s) => s,
    };
    let decoded = match inflate(stored.as_slice()) {
        None => {
            return Err(ParseError::IOError);
        },
        Some(d) => d,
    };
    Ok(strip_first_line_of(decoded.as_slice()))
}

/// Stripping the tag line recovers exactly what followed a
/// newline-terminated tag.
pub proof fn lemma_strip_tag(tag: Seq<u8>, content: Seq<u8>)
    requires
        tag.len() > 0,
        tag[tag.len() - 1] == nl(),
        forall|j: int| 0 <= j < tag.len() - 1 ==> tag[j] != nl(),
    ensures
        strip_first_line(tag + content) == content,
{
    let s = tag + content;
    lemma_first_byte_at(s, nl(), tag.len() - 1);
    assert(s.subrange(tag.len() as int, s.len() as int) =~= content);
}

} // verus!
