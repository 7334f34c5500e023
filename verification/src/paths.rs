//! Well-known repository paths, object type tags and entry lead-ins,
//! and the derived path of a stored object.

use vstd::prelude::*;

use crate::text::is_ws;

verus! {

/// `".yit"`: the repository marker directory.
pub open spec fn yit_root() -> Seq<u8> {
    seq![46u8, 121u8, 105u8, 116u8]
}

/// Builds `".yit"`.
pub fn yit_root_vec() -> (r: Vec<u8>)
    ensures
        r@ == yit_root(),
{
    let mut v: Vec<u8> = Vec::new();
    v.push(46);
    v.push(121);
    v.push(105);
    v.push(116);
    proof {
        assert(v@ =~= yit_root());
    }
    v
}

/// `".yit/objects/"`: the object directory prefix.
pub open spec fn objects_prefix() -> Seq<u8> {
    seq![46u8, 121u8, 105u8, 116u8, 47u8, 111u8, 98u8, 106u8, 101u8, 99u8, 116u8, 115u8, 47u8]
}

/// Builds `".yit/objects/"`.
pub fn objects_prefix_vec() -> (r: Vec<u8>)
    ensures
        r@ == objects_prefix(),
{
    let mut v: Vec<u8> = Vec::new();
    v.push(46);
    v.push(121);
    v.push(105);
    v.push(116);
    v.push(47);
    v.push(111);
    v.push(98);
    v.push(106);
    v.push(101);
    v.push(99);
    v.push(116);
    v.push(115);
    v.push(47);
    proof {
        assert(v@ =~= objects_prefix());
    }
    v
}

/// `".yit/index"`: the staging index file.
pub open spec fn index_path() -> Seq<u8> {
    seq![46u8, 121u8, 105u8, 116u8, 47u8, 105u8, 110u8, 100u8, 101u8, 120u8]
}

/// Builds `".yit/index"`.
pub fn index_path_vec() -> (r: Vec<u8>)
    ensures
        r@ == index_path(),
{
    let mut v: Vec<u8> = Vec::new();
    v.push(46);
    v.push(121);
    v.push(105);
    v.push(116);
    v.push(47);
    v.push(105);
    v.push(110);
    v.push(100);
    v.push(101);
    v.push(120);
    proof {
        assert(v@ =~= index_path());
    }
    v
}

/// `".yit/HEAD"`: the HEAD pointer file.
pub open spec fn head_path() -> Seq<u8> {
    seq![46u8, 121u8, 105u8, 116u8, 47u8, 72u8, 69u8, 65u8, 68u8]
}

/// Builds `".yit/HEAD"`.
pub fn head_path_vec() -> (r: Vec<u8>)
    ensures
        r@ == head_path(),
{
    let mut v: Vec<u8> = Vec::new();
    v.push(46);
    v.push(121);
    v.push(105);
    v.push(116);
    v.push(47);
    v.push(72);
    v.push(69);
    v.push(65);
    v.push(68);
    proof {
        assert(v@ =~= head_path());
    }
    v
}

/// `".yit/refs/heads/"`: the branch ref directory prefix.
pub open spec fn heads_prefix() -> Seq<u8> {
    seq![46u8, 121u8, 105u8, 116u8, 47u8, 114u8, 101u8, 102u8, 115u8, 47u8, 104u8, 101u8, 97u8, 100u8, 115u8, 47u8]
}

/// Builds `".yit/refs/heads/"`.
pub fn heads_prefix_vec() -> (r: Vec<u8>)
    ensures
        r@ == heads_prefix(),
{
    let mut v: Vec<u8> = Vec::new();
    v.push(46);
    v.push(121);
    v.push(105);
    v.push(116);
    v.push(47);
    v.push(114);
    v.push(101);
    v.push(102);
    v.push(115);
    v.push(47);
    v.push(104);
    v.push(101);
    v.push(97);
    v.push(100);
    v.push(115);
    v.push(47);
    proof {
        assert(v@ =~= heads_prefix());
    }
    v
}

/// `".yit/refs/heads/master"`: the default branch ref file.
pub open spec fn master_ref_path() -> Seq<u8> {
    seq![46u8, 121u8, 105u8, 116u8, 47u8, 114u8, 101u8, 102u8, 115u8, 47u8, 104u8, 101u8, 97u8, 100u8, 115u8, 47u8, 109u8, 97u8, 115u8, 116u8, 101u8, 114u8]
}

/// Builds `".yit/refs/heads/master"`.
pub fn master_ref_path_vec() -> (r: Vec<u8>)
    ensures
        r@ == master_ref_path(),
{
    let mut v: Vec<u8> = Vec::new();
    v.push(46);
    v.push(121);
    v.push(105);
    v.push(116);
    v.push(47);
    v.push(114);
    v.push(101);
    v.push(102);
    v.push(115);
    v.push(47);
    v.push(104);
    v.push(101);
    v.push(97);
    v.push(100);
    v.push(115);
    v.push(47);
    v.push(109);
    v.push(97);
    v.push(115);
    v.push(116);
    v.push(101);
    v.push(114);
    proof {
        assert(v@ =~= master_ref_path());
    }
    v
}

/// `"blob\n"`: the stored type tag of a blob object.
pub open spec fn blob_tag() -> Seq<u8> {
    seq![98u8, 108u8, 111u8, 98u8, 10u8]
}

/// Builds `"blob\n"`.
pub fn blob_tag_vec() -> (r: Vec<u8>)
    ensures
        r@ == blob_tag(),
{
    let mut v: Vec<u8> = Vec::new();
    v.push(98);
    v.push(108);
    v.push(111);
    v.push(98);
    v.push(10);
    proof {
        assert(v@ =~= blob_tag());
    }
    v
}

/// `"tree\n"`: the stored type tag of a tree object.
pub open spec fn tree_tag() -> Seq<u8> {
    seq![116u8, 114u8, 101u8, 101u8, 10u8]
}

/// Builds `"tree\n"`.
pub fn tree_tag_vec() -> (r: Vec<u8>)
    ensures
        r@ == tree_tag(),
{
    let mut v: Vec<u8> = Vec::new();
    v.push(116);
    v.push(114);
    v.push(101);
    v.push(101);
    v.push(10);
    proof {
        assert(v@ =~= tree_tag());
    }
    v
}

/// `"commit\n"`: the leading type tag of a commit object.
pub open spec fn commit_tag() -> Seq<u8> {
    seq![99u8, 111u8, 109u8, 109u8, 105u8, 116u8, 10u8]
}

/// Builds `"commit\n"`.
pub fn commit_tag_vec() -> (r: Vec<u8>)
    ensures
        r@ == commit_tag(),
{
    let mut v: Vec<u8> = Vec::new();
    v.push(99);
    v.push(111);
    v.push(109);
    v.push(109);
    v.push(105);
    v.push(116);
    v.push(10);
    proof {
        assert(v@ =~= commit_tag());
    }
    v
}

/// `"tree "`: the lead-in of a subtree entry line.
pub open spec fn tree_entry_prefix() -> Seq<u8> {
    seq![116u8, 114u8, 101u8, 101u8, 32u8]
}

/// Builds `"tree "`.
pub fn tree_entry_prefix_vec() -> (r: Vec<u8>)
    ensures
        r@ == tree_entry_prefix(),
{
    let mut v: Vec<u8> = Vec::new();
    v.push(116);
    v.push(114);
    v.push(101);
    v.push(101);
    v.push(32);
    proof {
        assert(v@ =~= tree_entry_prefix());
    }
    v
}

/// `"blob "`: the lead-in of a blob entry line.
pub open spec fn blob_entry_prefix() -> Seq<u8> {
    seq![98u8, 108u8, 111u8, 98u8, 32u8]
}

/// Builds `"blob "`.
pub fn blob_entry_prefix_vec() -> (r: Vec<u8>)
    ensures
        r@ == blob_entry_prefix(),
{
    let mut v: Vec<u8> = Vec::new();
    v.push(98);
    v.push(108);
    v.push(111);
    v.push(98);
    v.push(32);
    proof {
        assert(v@ =~= blob_entry_prefix());
    }
    v
}

/// `"tree"`: the first word of a subtree entry line.
pub open spec fn tree_word() -> Seq<u8> {
    seq![116u8, 114u8, 101u8, 101u8]
}

/// Builds `"tree"`.
pub fn tree_word_vec() -> (r: Vec<u8>)
    ensures
        r@ == tree_word(),
{
    let mut v: Vec<u8> = Vec::new();
    v.push(116);
    v.push(114);
    v.push(101);
    v.push(101);
    proof {
        assert(v@ =~= tree_word());
    }
    v
}

/// `"ref\n"`: the lead-in of a branch ref file.
pub open spec fn ref_tag() -> Seq<u8> {
    seq![114u8, 101u8, 102u8, 10u8]
}

/// Builds `"ref\n"`.
pub fn ref_tag_vec() -> (r: Vec<u8>)
    ensures
        r@ == ref_tag(),
{
    let mut v: Vec<u8> = Vec::new();
    v.push(114);
    v.push(101);
    v.push(102);
    v.push(10);
    proof {
        assert(v@ =~= ref_tag());
    }
    v
}

/// Whether `s` begins with `pre`.
pub open spec fn starts_with(s: Seq<u8>, pre: Seq<u8>) -> bool {
    s.len() >= pre.len() && s.subrange(0, pre.len() as int) == pre
}

/// A usable working-tree path: non-empty, free of whitespace (the index
/// file and tree entry lines are whitespace-separated), and outside the
/// repository's own directory.
pub open spec fn wf_path(p: Seq<u8>) -> bool {
    &&& p.len() > 0
    &&& forall|i: int| 0 <= i < p.len() ==> !is_ws(p[i])
    &&& !starts_with(p, yit_root())
}

/// Where the object with the given digest is stored: the object directory,
/// the first two digest characters, a separator, then the rest.
pub open spec fn object_path(hash: Seq<u8>) -> Seq<u8> {
    objects_prefix() + hash.subrange(0, 2) + seq![47u8] + hash.skip(2)
}

/// Builds the storage path of the object with the given digest.
pub fn object_path_of(hash: &[u8]) -> (r: Vec<u8>)
    requires
        hash@.len() >= 2,
    ensures
        r@ == object_path(hash@),
{
    let mut v = objects_prefix_vec();
    v.push(hash[0]);
    v.push(hash[1]);
    v.push(47);
    crate::text::append_bytes(&mut v, vstd::slice::slice_subrange(hash, 2, hash.len()));
    proof {
        assert(v@ =~= object_path(hash@));
    }
    v
}

/// An object path lies inside the repository directory, so it never
/// collides with a usable working-tree path.
pub proof fn lemma_object_path_not_wf(hash: Seq<u8>, p: Seq<u8>)
    requires
        hash.len() >= 2,
        wf_path(p),
    ensures
        object_path(hash) != p,
{
    if object_path(hash) == p {
        assert(p.subrange(0, 4) =~= yit_root());
    }
}

} // verus!
