//! Branch refs: named files holding a tag line and a commit hash.

use vstd::prelude::*;

use crate::paths::heads_prefix;
use crate::paths::heads_prefix_vec;
use crate::paths::ref_tag;
use crate::paths::ref_tag_vec;
use crate::storage::Storage;
use crate::text::append_bytes;
use crate::text::lemma_split_join;
use crate::text::lines_of;
use crate::text::nl;

verus! {

/// Why a branch ref could not be read or written.
#[derive(Clone, Copy, PartialEq, Eq, Structural, Debug)]
pub enum BranchError {
    IOError,
}

/// Where the ref file of the named branch lives.
pub open spec fn branch_ref_path(name: Seq<u8>) -> Seq<u8> {
    heads_prefix() + name
}

/// Builds the ref file path of the named branch.
pub fn branch_ref_path_of(name: &[u8]) -> (r: Vec<u8>)
    ensures
        r@ == branch_ref_path(name@),
{
    let mut v = heads_prefix_vec();
    append_bytes(&mut v, name);
    v
}

/// The content of a ref file naming the given commit.
pub open spec fn ref_content(hash: Seq<u8>) -> Seq<u8> {
    ref_tag() + hash
}

/// A ref file splits into its tag line and the named commit hash.
pub proof fn lemma_ref_content_lines(hash: Seq<u8>)
    requires
        forall|j: int| 0 <= j < hash.len() ==> hash[j] != nl(),
    ensures
        lines_of(ref_content(hash)) == seq![seq![114u8, 101u8, 102u8], hash],
{
    let ls = seq![seq![114u8, 101u8, 102u8], hash];
    lemma_split_join(ls, nl());
    assert(ls.drop_first() =~= seq![hash]);
    assert(crate::text::join_lines(seq![hash]) == hash);
    assert(crate::text::join_lines(ls) =~= ref_content(hash));
}

/// Reads the commit hash a branch ref names: the ref file's second line.
pub fn get_commit(store: &Storage, branch_name: &[u8]) -> (r: Result<Vec<u8>, BranchError>)
    ensures
        match r {
            Ok(h) => {
                &&& store@.contains_key(branch_ref_path(branch_name@))
                &&& lines_of(store@[branch_ref_path(branch_name@)]).len() >= 2
                &&& h@ == lines_of(store@[branch_ref_path(branch_name@)])[1]
            },
            Err(_) => !store@.contains_key(branch_ref_path(branch_name@)) || lines_of(
                store@[branch_ref_path(branch_name@)],
            ).len() < 2,
        },
{
    let path = branch_ref_path_of(branch_name);
    let content = match store.get(path.as_slice()) {
        None => {
            return Err(BranchError::IOError);
        },
        Some(c) => c,
    };
    let lines = crate::text::split_lines(content.as_slice());
    if lines.len() < 2 {
        proof {
            assert(lines.deep_view().len() == lines@.len());
        }
        return Err(BranchError::IOError);
    }
    let second = crate::text::copy_range(lines[1].as_slice(), 0, lines[1].len());
    proof {
        assert(lines.deep_view()[1] == lines@[1]@);
        assert(second@ =~= lines_of(store@[branch_ref_path(branch_name@)])[1]);
    }
    Ok(second)
}

/// Points the named branch at the given commit, creating or overwriting
/// its ref file.
pub fn set_last_commit(store: &mut Storage, branch_name: &[u8], commit_hash: &[u8]) -> (r: Result<
    (),
    BranchError,
>)
    ensures
        r is Ok,
        final(store)@ == old(store)@.insert(
            branch_ref_path(branch_name@),
            ref_content(commit_hash@),
        ),
{
    let path = branch_ref_path_of(branch_name);
    let mut content = ref_tag_vec();
    append_bytes(&mut content, commit_hash);
    store.set(path, content);
    Ok(())
}

} // verus!
