//! Byte-string utilities: splitting on a separator byte, whitespace
//! tokenising, decimal rendering, and concatenation.

use vstd::prelude::*;

verus! {

/// The line separator.
pub open spec fn nl() -> u8 {
    10
}

/// The word separator inside an entry line.
pub open spec fn sp() -> u8 {
    32
}

/// The path segment separator.
pub open spec fn sep() -> u8 {
    47
}

/// Whitespace, as the index file tokeniser understands it.
pub open spec fn is_ws(b: u8) -> bool {
    b == 32 || b == 10 || b == 9 || b == 13
}

/// The index of the first occurrence of `b` in `s`, or `s.len()`.
pub open spec fn first_byte(s: Seq<u8>, b: u8) -> int
    decreases s.len(),
{
    if s.len() == 0 {
        0
    } else if s[0] == b {
        0
    } else {
        1 + first_byte(s.drop_first(), b)
    }
}

pub proof fn lemma_first_byte(s: Seq<u8>, b: u8)
    ensures
        0 <= first_byte(s, b) <= s.len(),
        first_byte(s, b) < s.len() ==> s[first_byte(s, b)] == b,
        forall|j: int| 0 <= j < first_byte(s, b) ==> s[j] != b,
    decreases s.len(),
{
    if s.len() > 0 && s[0] != b {
        lemma_first_byte(s.drop_first(), b);
        assert(forall|j: int| 0 < j < first_byte(s, b) ==> s[j] == s.drop_first()[j - 1]);
    }
}

/// `first_byte` is determined by its characteristic properties.
pub proof fn lemma_first_byte_at(s: Seq<u8>, b: u8, p: int)
    requires
        0 <= p <= s.len(),
        p < s.len() ==> s[p] == b,
        forall|j: int| 0 <= j < p ==> s[j] != b,
    ensures
        first_byte(s, b) == p,
    decreases s.len(),
{
    if s.len() > 0 && s[0] != b {
        assert(p > 0);
        lemma_first_byte_at(s.drop_first(), b, p - 1);
    }
}

/// The pieces of `s` between occurrences of `b`; the separators are
/// consumed. An empty input yields one empty piece, and a trailing
/// separator yields a final empty piece.
pub open spec fn split_by(s: Seq<u8>, b: u8) -> Seq<Seq<u8>>
    decreases s.len(),
{
    let p = first_byte(s, b);
    if 0 <= p < s.len() {
        seq![s.subrange(0, p)] + split_by(s.subrange(p + 1, s.len() as int), b)
    } else {
        seq![s]
    }
}

/// The pieces joined back with single separators.
pub open spec fn join_by(ls: Seq<Seq<u8>>, b: u8) -> Seq<u8>
    decreases ls.len(),
{
    if ls.len() == 0 {
        seq![]
    } else if ls.len() == 1 {
        ls[0]
    } else {
        ls[0] + seq![b] + join_by(ls.drop_first(), b)
    }
}

/// The lines of `s`.
pub open spec fn lines_of(s: Seq<u8>) -> Seq<Seq<u8>> {
    split_by(s, nl())
}

/// The space-separated words of an entry line.
pub open spec fn words_of(s: Seq<u8>) -> Seq<Seq<u8>> {
    split_by(s, sp())
}

/// The lines joined back with single newlines.
pub open spec fn join_lines(ls: Seq<Seq<u8>>) -> Seq<u8> {
    join_by(ls, nl())
}

pub proof fn lemma_split_by_len(s: Seq<u8>, b: u8)
    ensures
        split_by(s, b).len() >= 1,
    decreases s.len(),
{
    lemma_first_byte(s, b);
}

/// Joining separator-free pieces and splitting again recovers them.
pub proof fn lemma_split_join(ls: Seq<Seq<u8>>, b: u8)
    requires
        ls.len() >= 1,
        forall|i: int, j: int| 0 <= i < ls.len() && 0 <= j < ls[i].len() ==> ls[i][j] != b,
    ensures
        split_by(join_by(ls, b), b) == ls,
    decreases ls.len(),
{
    let s = join_by(ls, b);
    if ls.len() == 1 {
        lemma_first_byte_at(s, b, s.len() as int);
        assert(split_by(s, b) =~= ls);
    } else {
        let rest = join_by(ls.drop_first(), b);
        assert(s == ls[0] + seq![b] + rest);
        assert(forall|j: int| 0 <= j < ls[0].len() ==> s[j] != b);
        assert(s[ls[0].len() as int] == b);
        lemma_first_byte_at(s, b, ls[0].len() as int);
        lemma_split_join(ls.drop_first(), b);
        assert(s.subrange(0, ls[0].len() as int) =~= ls[0]);
        assert(s.subrange(ls[0].len() + 1 as int, s.len() as int) =~= rest);
        assert(split_by(s, b) =~= ls);
    }
}

/// Splitting a separator-terminated piece off the front.
pub proof fn lemma_split_prepend(x: Seq<u8>, rest: Seq<u8>, b: u8)
    requires
        forall|j: int| 0 <= j < x.len() ==> x[j] != b,
    ensures
        split_by(x + seq![b] + rest, b) == seq![x] + split_by(rest, b),
{
    let s = x + seq![b] + rest;
    lemma_first_byte_at(s, b, x.len() as int);
    assert(s.subrange(0, x.len() as int) =~= x);
    assert(s.subrange(x.len() + 1 as int, s.len() as int) =~= rest);
    assert(split_by(s, b) =~= seq![x] + split_by(rest, b));
}

/// A separator-free string is a single piece.
pub proof fn lemma_split_single(x: Seq<u8>, b: u8)
    requires
        forall|j: int| 0 <= j < x.len() ==> x[j] != b,
    ensures
        split_by(x, b) == seq![x],
{
    lemma_first_byte_at(x, b, x.len() as int);
}

/// Everything after the first line; empty if the input has a single line.
pub open spec fn strip_first_line(s: Seq<u8>) -> Seq<u8> {
    if first_byte(s, nl()) == s.len() {
        seq![]
    } else {
        s.subrange(first_byte(s, nl()) + 1, s.len() as int)
    }
}

/// The index of the first whitespace byte in `s`, or `s.len()`.
pub open spec fn first_ws(s: Seq<u8>) -> int
    decreases s.len(),
{
    if s.len() == 0 {
        0
    } else if is_ws(s[0]) {
        0
    } else {
        1 + first_ws(s.drop_first())
    }
}

pub proof fn lemma_first_ws(s: Seq<u8>)
    ensures
        0 <= first_ws(s) <= s.len(),
        first_ws(s) < s.len() ==> is_ws(s[first_ws(s)]),
        forall|j: int| 0 <= j < first_ws(s) ==> !is_ws(s[j]),
    decreases s.len(),
{
    if s.len() > 0 && !is_ws(s[0]) {
        lemma_first_ws(s.drop_first());
        assert(forall|j: int| 0 < j < first_ws(s) ==> s[j] == s.drop_first()[j - 1]);
    }
}

pub proof fn lemma_first_ws_at(s: Seq<u8>, p: int)
    requires
        0 <= p <= s.len(),
        p < s.len() ==> is_ws(s[p]),
        forall|j: int| 0 <= j < p ==> !is_ws(s[j]),
    ensures
        first_ws(s) == p,
    decreases s.len(),
{
    if s.len() > 0 && !is_ws(s[0]) {
        assert(p > 0);
        lemma_first_ws_at(s.drop_first(), p - 1);
    }
}

/// The maximal whitespace-free runs of `s`, in order.
pub open spec fn tokens_of(s: Seq<u8>) -> Seq<Seq<u8>>
    decreases s.len(),
{
    if s.len() == 0 {
        seq![]
    } else if is_ws(s[0]) {
        tokens_of(s.drop_first())
    } else {
        let p = first_ws(s);
        if 0 < p <= s.len() {
            seq![s.subrange(0, p)] + tokens_of(s.subrange(p, s.len() as int))
        } else {
            seq![]
        }
    }
}

/// Appends a byte string to a growing buffer.
pub fn append_bytes(dst: &mut Vec<u8>, src: &[u8])
    ensures
        final(dst)@ == old(dst)@ + src@,
{
    let mut i: usize = 0;
    while i < src.len()
        invariant
            0 <= i <= src.len(),
            dst@ == old(dst)@ + src@.subrange(0, i as int),
        decreases src.len() - i,
    {
        dst.push(src[i]);
        proof {
            assert(old(dst)@ + src@.subrange(0, i as int) + seq![src@[i as int]] =~= old(dst)@
                + src@.subrange(0, i + 1));
        }
        i = i + 1;
    }
    proof {
        assert(src@.subrange(0, src@.len() as int) =~= src@);
    }
}

/// Copies `v[from..to]` into a fresh buffer.
pub fn copy_range(v: &[u8], from: usize, to: usize) -> (r: Vec<u8>)
    requires
        0 <= from <= to <= v@.len(),
    ensures
        r@ == v@.subrange(from as int, to as int),
{
    vstd::slice::slice_to_vec(vstd::slice::slice_subrange(v, from, to))
}

/// Splits a byte string at each occurrence of `b`, consuming the
/// separators.
pub fn split_on(v: &[u8], b: u8) -> (r: Vec<Vec<u8>>)
    ensures
        r.deep_view() == split_by(v@, b),
{
    let mut out: Vec<Vec<u8>> = Vec::new();
    let n = v.len();
    let mut i: usize = 0;
    proof {
        assert(out.deep_view() =~= Seq::<Seq<u8>>::empty());
        assert(v@.skip(0) =~= v@);
        assert(out.deep_view() + split_by(v@, b) =~= split_by(v@, b));
    }
    while i < n
        invariant
            0 <= i <= n,
            n == v@.len(),
            split_by(v@, b) == out.deep_view() + split_by(v@.skip(i as int), b),
        decreases n - i,
    {
        let ghost pre = out.deep_view();
        let ghost suffix = v@.skip(i as int);
        // find the next separator
        let mut j: usize = i;
        while j < n && v[j] != b
            invariant
                i <= j <= n,
                n == v@.len(),
                forall|k: int| i <= k < j ==> v@[k] != b,
            decreases n - j,
        {
            j = j + 1;
        }
        proof {
            lemma_first_byte_at(suffix, b, j - i);
        }
        let piece = copy_range(v, i, j);
        out.push(piece);
        proof {
            assert(suffix.subrange(0, j - i) =~= v@.subrange(i as int, j as int));
            assert(out.deep_view() =~~= pre.push(piece@));
            if j < n {
                assert(suffix.subrange(j - i + 1, suffix.len() as int) =~= v@.skip(j + 1));
                assert(pre.push(piece@) + split_by(v@.skip(j + 1), b) =~= pre + split_by(
                    suffix,
                    b,
                ));
            } else {
                assert(piece@ == suffix);
                assert(pre.push(piece@) =~= pre + split_by(suffix, b));
            }
        }
        if j < n {
            i = j + 1;
        } else {
            proof {
                assert(split_by(v@, b) =~= out.deep_view());
            }
            return out;
        }
    }
    // i == n: the input either was empty or ended with a separator
    proof {
        assert(v@.skip(n as int) =~= Seq::<u8>::empty());
    }
    let empty_piece: Vec<u8> = Vec::new();
    let ghost pre = out.deep_view();
    out.push(empty_piece);
    proof {
        assert(out.deep_view() =~~= pre.push(Seq::<u8>::empty()));
        assert(split_by(v@, b) =~= out.deep_view());
    }
    out
}

/// Splits a byte string into its lines.
pub fn split_lines(v: &[u8]) -> (r: Vec<Vec<u8>>)
    ensures
        r.deep_view() == lines_of(v@),
{
    split_on(v, 10)
}

/// Splits a byte string into whitespace-separated tokens.
pub fn split_tokens(v: &[u8]) -> (r: Vec<Vec<u8>>)
    ensures
        r.deep_view() == tokens_of(v@),
{
    let mut out: Vec<Vec<u8>> = Vec::new();
    let n = v.len();
    let mut i: usize = 0;
    proof {
        assert(out.deep_view() =~= Seq::<Seq<u8>>::empty());
        assert(v@.skip(0) =~= v@);
        assert(out.deep_view() + tokens_of(v@) =~= tokens_of(v@));
    }
    while i < n
        invariant
            0 <= i <= n,
            n == v@.len(),
            tokens_of(v@) == out.deep_view() + tokens_of(v@.skip(i as int)),
        decreases n - i,
    {
        let b = v[i];
        if b == 32 || b == 10 || b == 9 || b == 13 {
            proof {
                assert(v@.skip(i as int).drop_first() =~= v@.skip(i + 1));
            }
            i = i + 1;
        } else {
            let ghost pre = out.deep_view();
            let ghost suffix = v@.skip(i as int);
            let mut j: usize = i;
            while j < n && !(v[j] == 32 || v[j] == 10 || v[j] == 9 || v[j] == 13)
                invariant
                    i <= j <= n,
                    n == v@.len(),
                    forall|k: int| i <= k < j ==> !is_ws(v@[k]),
                decreases n - j,
            {
                j = j + 1;
            }
            proof {
                lemma_first_ws_at(suffix, j - i);
            }
            let token = copy_range(v, i, j);
            out.push(token);
            proof {
                assert(suffix.subrange(0, j - i) =~= v@.subrange(i as int, j as int));
                assert(suffix.subrange(j - i, suffix.len() as int) =~= v@.skip(j as int));
                assert(out.deep_view() =~~= pre.push(token@));
                assert(pre.push(token@) + tokens_of(v@.skip(j as int)) =~= pre + tokens_of(
                    suffix,
                ));
            }
            i = j;
        }
    }
    proof {
        assert(v@.skip(n as int) =~= Seq::<u8>::empty());
        assert(tokens_of(v@) =~= out.deep_view());
    }
    out
}

/// Everything after the first line of `v`.
pub fn strip_first_line_of(v: &[u8]) -> (r: Vec<u8>)
    ensures
        r@ == strip_first_line(v@),
{
    let n = v.len();
    let mut j: usize = 0;
    while j < n && v[j] != 10
        invariant
            0 <= j <= n,
            n == v@.len(),
            forall|k: int| 0 <= k < j ==> v@[k] != nl(),
        decreases n - j,
    {
        j = j + 1;
    }
    proof {
        lemma_first_byte_at(v@, nl(), j as int);
    }
    if j < n {
        copy_range(v, j + 1, n)
    } else {
        Vec::new()
    }
}

/// The decimal digits of `n`, most significant first.
pub open spec fn dec_rep(n: nat) -> Seq<u8>
    decreases n,
{
    if n < 10 {
        seq![(48 + n) as u8]
    } else {
        dec_rep(n / 10).push((48 + n % 10) as u8)
    }
}

/// Renders `n` in decimal.
pub fn to_decimal(n: usize) -> (r: Vec<u8>)
    ensures
        r@ == dec_rep(n as nat),
    decreases n,
{
    if n < 10 {
        let mut v: Vec<u8> = Vec::new();
        v.push(48 + n as u8);
        proof {
            assert(v@ =~= dec_rep(n as nat));
        }
        v
    } else {
        let mut v = to_decimal(n / 10);
        v.push(48 + (n % 10) as u8);
        v
    }
}

} // verus!
