//! The diff engine: positional line comparison of two blobs.

use vstd::prelude::*;

use crate::file::cat_file;
use crate::file::object_content;
use crate::file::object_readable;
use crate::storage::Storage;
use crate::text::lines_of;

verus! {

/// The diff lines from position `i` on: matching lines emit nothing,
/// differing lines emit both (the first blob's, then the second's), and
/// positions past one side's end emit the longer side's line.
pub open spec fn diff_lines_from(a: Seq<Seq<u8>>, b: Seq<Seq<u8>>, i: int) -> Seq<u8>
    decreases a.len() + b.len() - i,
{
    if i < 0 || (i >= a.len() && i >= b.len()) {
        seq![]
    } else if i >= b.len() {
        a[i] + seq![10u8] + diff_lines_from(a, b, i + 1)
    } else if i >= a.len() {
        b[i] + seq![10u8] + diff_lines_from(a, b, i + 1)
    } else if a[i] == b[i] {
        diff_lines_from(a, b, i + 1)
    } else {
        a[i] + seq![10u8] + b[i] + seq![10u8] + diff_lines_from(a, b, i + 1)
    }
}

/// The positional diff of two blob contents.
pub open spec fn diff_of(a: Seq<u8>, b: Seq<u8>) -> Seq<u8> {
    diff_lines_from(lines_of(a), lines_of(b), 0)
}

/// Reads two blobs and compares them line by line; if either cannot be
/// read, the diff is empty.
pub fn get_diff_files(store: &Storage, blob1_hash: &[u8], blob2_hash: &[u8]) -> (r: Vec<u8>)
    requires
        blob1_hash@.len() >= 2,
        blob2_hash@.len() >= 2,
    ensures
        r@ == if object_readable(store@, blob1_hash@) && object_readable(store@, blob2_hash@) {
            diff_of(object_content(store@, blob1_hash@), object_content(store@, blob2_hash@))
        } else {
            Seq::<u8>::empty()
        },
{
    let blob1 = match cat_file(store, blob1_hash) {
        Err(_) => {
            return Vec::new();
        },
        Ok(c) => c,
    };
    let blob2 = match cat_file(store, blob2_hash) {
        Err(_) => {
            return Vec::new();
        },
        Ok(c) => c,
    };
    let lines1 = crate::text::split_lines(blob1.as_slice());
    let lines2 = crate::text::split_lines(blob2.as_slice());
    let ghost al = lines_of(blob1@);
    let ghost bl = lines_of(blob2@);
    proof {
        assert(lines1.deep_view() =~= al);
        assert(lines2.deep_view() =~= bl);
    }
    let mut out: Vec<u8> = Vec::new();
    let n1 = lines1.len();
    let n2 = lines2.len();
    let n = if n1 > n2 {
        n1
    } else {
        n2
    };
    let mut i: usize = 0;
    while i < n
        invariant
            0 <= i <= n,
            n1 == lines1@.len(),
            n2 == lines2@.len(),
            n == if n1 > n2 {
                n1
            } else {
                n2
            },
            al == lines1.deep_view(),
            bl == lines2.deep_view(),
            al.len() == n1,
            bl.len() == n2,
            diff_lines_from(al, bl, 0) == out@ + diff_lines_from(al, bl, i as int),
        decreases n - i,
    {
        let ghost out_pre = out@;
        proof {
            if i < al.len() {
                assert(al[i as int] =~= lines1@[i as int]@);
            }
            if i < bl.len() {
                assert(bl[i as int] =~= lines2@[i as int]@);
            }
        }
        if i >= n2 {
            crate::text::append_bytes(&mut out, lines1[i].as_slice());
            out.push(10);
            proof {
                assert(out@ =~= out_pre + (al[i as int] + seq![10u8]));
                assert(out_pre + (al[i as int] + seq![10u8]) + diff_lines_from(al, bl, i + 1)
                    =~= out_pre + diff_lines_from(al, bl, i as int));
            }
        } else if i >= n1 {
            crate::text::append_bytes(&mut out, lines2[i].as_slice());
            out.push(10);
            proof {
                assert(out@ =~= out_pre + (bl[i as int] + seq![10u8]));
                assert(out_pre + (bl[i as int] + seq![10u8]) + diff_lines_from(al, bl, i + 1)
                    =~= out_pre + diff_lines_from(al, bl, i as int));
            }
        } else if crate::storage::bytes_eq(lines1[i].as_slice(), lines2[i].as_slice()) {
            proof {
                assert(al[i as int] == bl[i as int]);
            }
        } else {
            crate::text::append_bytes(&mut out, lines1[i].as_slice());
            out.push(10);
            crate::text::append_bytes(&mut out, lines2[i].as_slice());
            out.push(10);
            proof {
                assert(out@ =~= out_pre + (al[i as int] + seq![10u8] + bl[i as int]
                    + seq![10u8]));
                assert(out_pre + (al[i as int] + seq![10u8] + bl[i as int] + seq![10u8])
                    + diff_lines_from(al, bl, i + 1) =~= out_pre + diff_lines_from(
                    al,
                    bl,
                    i as int,
                ));
            }
        }
        i = i + 1;
    }
    proof {
        assert(diff_lines_from(al, bl, n as int) =~= Seq::<u8>::empty());
        assert(out@ + Seq::<u8>::empty() =~= out@);
    }
    out
}

} // verus!
