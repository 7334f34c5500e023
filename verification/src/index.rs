//! The staging index: a path-to-blob-hash map persisted as
//! whitespace-separated pairs, one `path hash` line per entry.

use vstd::prelude::*;

use crate::blob::blob_hash_of;
use crate::blob::blob_store_content;
use crate::blob::hash_file;
use crate::blob::with_object;
use crate::blob::Blob;
use crate::codec::deflate_of;
use crate::codec::inflate_of;
use crate::paths::yit_root;
use crate::pathmap::extend_entries;
use crate::pathmap::insert_entry;
use crate::pathmap::keys_unique;
use crate::pathmap::lemma_extend_entries_step;
use crate::pathmap::lemma_insert_entry_absent;
use crate::pathmap::map_of;
use crate::pathmap::PathMap;
use crate::storage::Storage;
use crate::text::append_bytes;
use crate::text::first_ws;
use crate::text::lemma_first_ws;
use crate::text::is_ws;
use crate::text::lemma_first_ws_at;
use crate::text::split_tokens;
use crate::text::tokens_of;

verus! {

/// Why the index could not be loaded or updated.
#[derive(Clone, Copy, PartialEq, Eq, Structural, Debug)]
pub enum IndexError {
    IOError,
}

/// One persisted entry: the path, a space, the hash, a newline.
pub open spec fn entry_rep(e: (Seq<u8>, Seq<u8>)) -> Seq<u8> {
    e.0 + seq![32u8] + e.1 + seq![10u8]
}

/// The persisted form of the whole index.
pub open spec fn index_file_rep(es: Seq<(Seq<u8>, Seq<u8>)>) -> Seq<u8>
    decreases es.len(),
{
    if es.len() == 0 {
        seq![]
    } else {
        entry_rep(es[0]) + index_file_rep(es.drop_first())
    }
}

/// Consecutive tokens read as pairs; a trailing odd token is dropped.
pub open spec fn pair_entries(toks: Seq<Seq<u8>>) -> Seq<(Seq<u8>, Seq<u8>)>
    decreases toks.len(),
{
    if toks.len() < 2 {
        seq![]
    } else {
        seq![(toks[0], toks[1])] + pair_entries(toks.skip(2))
    }
}

/// The entries an index file's content parses to: its token pairs,
/// inserted in order.
pub open spec fn index_entries_of(content: Seq<u8>) -> Seq<(Seq<u8>, Seq<u8>)> {
    extend_entries(Seq::empty(), pair_entries(tokens_of(content)))
}

/// An entry whose path and hash survive the whitespace-separated format.
pub open spec fn entry_plain(e: (Seq<u8>, Seq<u8>)) -> bool {
    &&& e.0.len() > 0
    &&& forall|j: int| 0 <= j < e.0.len() ==> !is_ws(e.0[j])
    &&& e.1.len() > 0
    &&& forall|j: int| 0 <= j < e.1.len() ==> !is_ws(e.1[j])
}

pub open spec fn entries_plain(es: Seq<(Seq<u8>, Seq<u8>)>) -> bool {
    forall|i: int| 0 <= i < es.len() ==> entry_plain(#[trigger] es[i])
}

/// The tokens of the pairs, flattened.
pub open spec fn pairs_tokens(es: Seq<(Seq<u8>, Seq<u8>)>) -> Seq<Seq<u8>>
    decreases es.len(),
{
    if es.len() == 0 {
        seq![]
    } else {
        seq![es[0].0, es[0].1] + pairs_tokens(es.drop_first())
    }
}

/// Tokenising one persisted entry followed by anything yields the entry's
/// two words, then the tokens of the remainder.
proof fn lemma_tokens_of_entry(e: (Seq<u8>, Seq<u8>), rest: Seq<u8>)
    requires
        entry_plain(e),
    ensures
        tokens_of(entry_rep(e) + rest) == seq![e.0, e.1] + tokens_of(rest),
{
    let k = e.0;
    let v = e.1;
    let s = entry_rep(e) + rest;
    assert(s.len() == k.len() + 1 + v.len() + 1 + rest.len());
    assert(forall|j: int| 0 <= j < k.len() ==> s[j] == k[j]);
    assert(s[k.len() as int] == 32u8);
    assert(!is_ws(s[0]));
    lemma_first_ws_at(s, k.len() as int);
    assert(first_ws(s) == k.len());
    assert(s.subrange(0, k.len() as int) =~= k);
    let s1 = s.subrange(k.len() as int, s.len() as int);
    assert(tokens_of(s) == seq![k] + tokens_of(s1));
    assert(is_ws(s1[0]));
    let s2 = s1.drop_first();
    assert(s2 =~= v + seq![10u8] + rest);
    assert(tokens_of(s1) == tokens_of(s2));
    assert(forall|j: int| 0 <= j < v.len() ==> s2[j] == v[j]);
    assert(s2[v.len() as int] == 10u8);
    assert(!is_ws(s2[0]));
    lemma_first_ws_at(s2, v.len() as int);
    assert(s2.subrange(0, v.len() as int) =~= v);
    let s3 = s2.subrange(v.len() as int, s2.len() as int);
    assert(tokens_of(s2) == seq![v] + tokens_of(s3));
    assert(is_ws(s3[0]));
    assert(s3.drop_first() =~= rest);
    assert(tokens_of(s3) == tokens_of(rest));
    assert(tokens_of(s) =~= seq![e.0, e.1] + tokens_of(rest));
}

/// Tokenising the persisted index recovers the pairs' words.
pub proof fn lemma_index_rep_tokens(es: Seq<(Seq<u8>, Seq<u8>)>)
    requires
        entries_plain(es),
    ensures
        tokens_of(index_file_rep(es)) == pairs_tokens(es),
    decreases es.len(),
{
    if es.len() == 0 {
        assert(tokens_of(index_file_rep(es)) =~= pairs_tokens(es));
    } else {
        assert(entries_plain(es.drop_first()));
        lemma_index_rep_tokens(es.drop_first());
        lemma_tokens_of_entry(es[0], index_file_rep(es.drop_first()));
        assert(tokens_of(index_file_rep(es)) =~= pairs_tokens(es));
    }
}

/// Reading the flattened words back as pairs recovers the entries.
pub proof fn lemma_pair_entries_of_tokens(es: Seq<(Seq<u8>, Seq<u8>)>)
    ensures
        pair_entries(pairs_tokens(es)) == es,
    decreases es.len(),
{
    if es.len() == 0 {
        assert(pair_entries(pairs_tokens(es)) =~= es);
    } else {
        lemma_pair_entries_of_tokens(es.drop_first());
        let t = pairs_tokens(es);
        assert(t.len() == 2 + pairs_tokens(es.drop_first()).len()) by {
            lemma_pairs_tokens_len(es);
        }
        assert(t.skip(2) =~= pairs_tokens(es.drop_first()));
        assert(t[0] == es[0].0);
        assert(t[1] == es[0].1);
        assert(pair_entries(t) =~= es);
    }
}

pub proof fn lemma_pairs_tokens_len(es: Seq<(Seq<u8>, Seq<u8>)>)
    ensures
        pairs_tokens(es).len() == 2 * es.len(),
    decreases es.len(),
{
    if es.len() > 0 {
        lemma_pairs_tokens_len(es.drop_first());
    }
}

/// Inserting pairwise-distinct, fresh keys in order just appends them.
pub proof fn lemma_extend_entries_fresh(a: Seq<(Seq<u8>, Seq<u8>)>, b: Seq<(Seq<u8>, Seq<u8>)>)
    requires
        keys_unique(b),
        forall|i: int, j: int| 0 <= i < a.len() && 0 <= j < b.len() ==> a[i].0 != b[j].0,
    ensures
        extend_entries(a, b) == a + b,
    decreases b.len(),
{
    if b.len() == 0 {
        assert(extend_entries(a, b) =~= a + b);
    } else {
        assert(forall|i: int| 0 <= i < a.len() ==> a[i].0 != b[0].0);
        lemma_insert_entry_absent(a, b[0].0, b[0].1);
        let a1 = a.push((b[0].0, b[0].1));
        assert(a1 == a.push(b[0])) by {
            assert((b[0].0, b[0].1) == b[0]);
        }
        assert(keys_unique(b.drop_first()));
        assert(forall|i: int, j: int|
            0 <= i < a1.len() && 0 <= j < b.drop_first().len() ==> a1[i].0
                != b.drop_first()[j].0);
        lemma_extend_entries_fresh(a1, b.drop_first());
        assert(extend_entries(a, b) =~= a + b);
    }
}

/// The parsed form of a well-formed persisted index is the index itself.
pub proof fn lemma_index_round_trip(es: Seq<(Seq<u8>, Seq<u8>)>)
    requires
        entries_plain(es),
        keys_unique(es),
    ensures
        index_entries_of(index_file_rep(es)) == es,
{
    lemma_index_rep_tokens(es);
    lemma_pair_entries_of_tokens(es);
    lemma_extend_entries_fresh(Seq::empty(), es);
    assert(Seq::<(Seq<u8>, Seq<u8>)>::empty() + es =~= es);
}


/// A single plain word: non-empty and free of whitespace.
pub open spec fn plain_word(s: Seq<u8>) -> bool {
    s.len() > 0 && forall|j: int| 0 <= j < s.len() ==> !is_ws(s[j])
}

/// Every token is a plain word: tokens are maximal whitespace-free runs.
pub proof fn lemma_tokens_plain(s: Seq<u8>)
    ensures
        forall|i: int| 0 <= i < tokens_of(s).len() ==> plain_word(#[trigger] tokens_of(s)[i]),
    decreases s.len(),
{
    if s.len() == 0 {
    } else if is_ws(s[0]) {
        lemma_tokens_plain(s.drop_first());
        assert forall|i: int| 0 <= i < tokens_of(s).len() implies plain_word(
            #[trigger] tokens_of(s)[i],
        ) by {
            assert(tokens_of(s)[i] == tokens_of(s.drop_first())[i]);
        }
    } else {
        lemma_first_ws(s);
        let p = first_ws(s);
        lemma_tokens_plain(s.subrange(p, s.len() as int));
        assert(plain_word(s.subrange(0, p))) by {
            assert(s.subrange(0, p).len() == p);
            assert(forall|j: int| 0 <= j < p ==> s.subrange(0, p)[j] == s[j]);
        }
        assert(tokens_of(s) == seq![s.subrange(0, p)] + tokens_of(s.subrange(p, s.len() as int)));
        assert(tokens_of(s)[0] == s.subrange(0, p));
        assert forall|i: int| 0 <= i < tokens_of(s).len() implies plain_word(
            #[trigger] tokens_of(s)[i],
        ) by {
            if i == 0 {
                assert(tokens_of(s)[i] == s.subrange(0, p));
            } else {
                assert(tokens_of(s)[i] == tokens_of(s.subrange(p, s.len() as int))[i - 1]);
            }
        }
    }
}

/// Pairs made of plain tokens are plain entries.
pub proof fn lemma_pair_entries_plain(toks: Seq<Seq<u8>>)
    requires
        forall|i: int| 0 <= i < toks.len() ==> plain_word(#[trigger] toks[i]),
    ensures
        entries_plain(pair_entries(toks)),
    decreases toks.len(),
{
    if toks.len() >= 2 {
        assert(forall|i: int|
            0 <= i < toks.skip(2).len() ==> plain_word(#[trigger] toks.skip(2)[i]));
        lemma_pair_entries_plain(toks.skip(2));
        assert(forall|i: int|
            1 <= i < pair_entries(toks).len() ==> pair_entries(toks)[i] == pair_entries(
                toks.skip(2),
            )[i - 1]);
    }
}

/// Inserting a plain pair keeps the entries plain.
pub proof fn lemma_insert_entry_plain(es: Seq<(Seq<u8>, Seq<u8>)>, k: Seq<u8>, v: Seq<u8>)
    requires
        entries_plain(es),
        plain_word(k),
        plain_word(v),
    ensures
        entries_plain(insert_entry(es, k, v)),
    decreases es.len(),
{
    if es.len() == 0 {
    } else if es[0].0 == k {
        let r = seq![(k, v)] + es.drop_first();
        assert(entries_plain(es.drop_first()));
        assert(forall|i: int|
            1 <= i < r.len() ==> r[i] == es.drop_first()[i - 1]);
        assert(r[0] == (k, v));
    } else {
        assert(entries_plain(es.drop_first()));
        lemma_insert_entry_plain(es.drop_first(), k, v);
        let r = seq![es[0]] + insert_entry(es.drop_first(), k, v);
        assert(forall|i: int|
            1 <= i < r.len() ==> r[i] == insert_entry(es.drop_first(), k, v)[i - 1]);
        assert(r[0] == es[0]);
    }
}

/// Extending by plain pairs keeps the entries plain.
pub proof fn lemma_extend_entries_plain(a: Seq<(Seq<u8>, Seq<u8>)>, b: Seq<(Seq<u8>, Seq<u8>)>)
    requires
        entries_plain(a),
        entries_plain(b),
    ensures
        entries_plain(extend_entries(a, b)),
    decreases b.len(),
{
    if b.len() > 0 {
        lemma_insert_entry_plain(a, b[0].0, b[0].1);
        assert(entries_plain(b.drop_first()));
        lemma_extend_entries_plain(insert_entry(a, b[0].0, b[0].1), b.drop_first());
    }
}

/// Whatever an index file holds, the entries it parses to are plain.
pub proof fn lemma_index_entries_plain(content: Seq<u8>)
    ensures
        entries_plain(index_entries_of(content)),
        keys_unique(index_entries_of(content)),
{
    lemma_tokens_plain(content);
    lemma_pair_entries_plain(tokens_of(content));
    assert(entries_plain(Seq::<(Seq<u8>, Seq<u8>)>::empty()));
    lemma_extend_entries_plain(Seq::empty(), pair_entries(tokens_of(content)));
    crate::pathmap::lemma_extend_entries_unique(Seq::empty(), pair_entries(tokens_of(content)));
}

/// The staging index, loaded from and rewritten to its backing file.
pub struct Index {
    pub index_map: PathMap,
    pub file_path: Vec<u8>,
}

impl Index {
    /// Loads the index from its backing file, creating an empty file
    /// first if none exists. Fails if the file holds an odd number of
    /// words.
    pub fn new(store: &mut Storage, file_path: Vec<u8>) -> (r: Result<Index, IndexError>)
        ensures
            final(store)@ == if old(store)@.contains_key(file_path@) {
                old(store)@
            } else {
                old(store)@.insert(file_path@, Seq::<u8>::empty())
            },
            ({
                let content = final(store)@[file_path@];
                match r {
                    Ok(ix) => {
                        &&& ix.file_path@ == file_path@
                        &&& tokens_of(content).len() % 2 == 0
                        &&& ix.index_map@ == index_entries_of(content)
                    },
                    Err(_) => tokens_of(content).len() % 2 == 1,
                }
            }),
    {
        let path_copy = crate::text::copy_range(file_path.as_slice(), 0, file_path.len());
        proof {
            assert(path_copy@ =~= file_path@);
        }
        if !store.contains(file_path.as_slice()) {
            let empty: Vec<u8> = Vec::new();
            store.set(path_copy, empty);
            let content: Vec<u8> = Vec::new();
            proof {
                assert(content@ =~= final(store)@[file_path@]);
            }
            return Index::from_content(store, file_path, content);
        }
        let content = match store.get(file_path.as_slice()) {
            None => {
                return Err(IndexError::IOError);
            },
            Some(c) => crate::text::copy_range(c.as_slice(), 0, c.len()),
        };
        proof {
            assert(content@ =~= store@[file_path@]);
        }
        Index::from_content(store, file_path, content)
    }

    /// Parses whitespace-separated words pairwise into the map.
    fn from_content(store: &Storage, file_path: Vec<u8>, content: Vec<u8>) -> (r: Result<
        Index,
        IndexError,
    >)
        ensures
            match r {
                Ok(ix) => {
                    &&& ix.file_path@ == file_path@
                    &&& tokens_of(content@).len() % 2 == 0
                    &&& ix.index_map@ == index_entries_of(content@)
                },
                Err(_) => tokens_of(content@).len() % 2 == 1,
            },
    {
        let tokens = split_tokens(content.as_slice());
        let n = tokens.len();
        proof {
            assert(tokens.deep_view().len() == tokens@.len());
        }
        if n % 2 == 1 {
            return Err(IndexError::IOError);
        }
        let ghost pairs = pair_entries(tokens_of(content@));
        proof {
            lemma_pair_entries_shape(tokens.deep_view());
        }
        let mut map = PathMap::new();
        let mut j: usize = 0;
        while j < n / 2
            invariant
                0 <= j <= n / 2,
                n == tokens@.len(),
                n % 2 == 0,
                tokens.deep_view() == tokens_of(content@),
                pairs == pair_entries(tokens_of(content@)),
                pairs.len() == n / 2,
                forall|p: int| 0 <= p < pairs.len() ==> #[trigger] pairs[p] == (
                    tokens.deep_view()[2 * p],
                    tokens.deep_view()[2 * p + 1],
                ),
                map@ == extend_entries(Seq::empty(), pairs.take(j as int)),
            decreases n / 2 - j,
        {
            let k = &tokens[2 * j];
            let v = &tokens[2 * j + 1];
            let k2 = crate::text::copy_range(k.as_slice(), 0, k.len());
            let v2 = crate::text::copy_range(v.as_slice(), 0, v.len());
            proof {
                assert(k2@ =~= tokens.deep_view()[2 * (j as int)]);
                assert(v2@ =~= tokens.deep_view()[2 * (j as int) + 1]);
                assert(pairs[j as int] == (k2@, v2@));
            }
            map.insert(k2, v2);
            proof {
                lemma_extend_entries_step(Seq::empty(), pairs, j as int);
            }
            j = j + 1;
        }
        proof {
            assert(pairs.take((n / 2) as int) =~= pairs);
        }
        Ok(Index { index_map: map, file_path })
    }

    /// Whether the index stages the given path.
    pub fn tracks_file(&self, path: &[u8]) -> (r: bool)
        ensures
            r == map_of(self.index_map@).contains_key(path@),
    {
        self.index_map.contains_key(path)
    }

    /// Whether the working file's current blob digest differs from the
    /// staged one. An unreadable working file counts as unchanged, so a
    /// transient read failure never forces a rewrite.
    pub fn has_different_hash(&self, store: &Storage, path: &[u8]) -> (r: bool)
        requires
            map_of(self.index_map@).contains_key(path@),
        ensures
            r == (store@.contains_key(path@) && map_of(self.index_map@)[path@] != blob_hash_of(
                store@[path@],
            )),
    {
        match hash_file(store, path) {
            None => false,
            Some(h) => {
                let staged = match self.index_map.get(path) {
                    None => {
                        return false;
                    },
                    Some(s) => s,
                };
                !crate::storage::bytes_eq(staged.as_slice(), h.as_slice())
            },
        }
    }

    /// Hashes and writes the working file's blob object, stages the path
    /// under the new hash, and rewrites the whole backing file.
    pub fn add_obj(
        &mut self,
        store: &mut Storage,
        path: Vec<u8>,
        full_path: Vec<u8>,
        index_path: Vec<u8>,
    ) -> (r: Result<(), IndexError>)
        ensures
            match r {
                Ok(()) => {
                    let content = old(store)@[full_path@];
                    let h = blob_hash_of(content);
                    &&& old(store)@.contains_key(full_path@)
                    &&& old(store)@.contains_key(yit_root())
                    &&& final(self).index_map@ == insert_entry(old(self).index_map@, path@, h)
                    &&& final(self).file_path@ == old(self).file_path@
                    &&& final(store)@ == with_object(
                        old(store)@,
                        h,
                        blob_store_content(content),
                    ).insert(index_path@, index_file_rep(final(self).index_map@))
                    &&& inflate_of(deflate_of(blob_store_content(content))) == Some(
                        blob_store_content(content),
                    )
                },
                Err(_) => {
                    &&& *final(self) == *old(self)
                    &&& final(store)@ == old(store)@
                    &&& (!old(store)@.contains_key(full_path@) || !old(store)@.contains_key(
                        yit_root(),
                    ))
                },
            },
    {
        let blob = Blob::new(full_path);
        let hash = match blob.hash_object(store, true) {
            Err(_) => {
                return Err(IndexError::IOError);
            },
            Ok(h) => h,
        };
        self.index_map.insert(path, hash);
        let rep = index_rep_of(&self.index_map);
        store.set(index_path, rep);
        Ok(())
    }
}

/// The positions and count of the parsed pairs.
proof fn lemma_pair_entries_shape(toks: Seq<Seq<u8>>)
    ensures
        pair_entries(toks).len() == toks.len() / 2,
        forall|p: int| 0 <= p < pair_entries(toks).len() ==> #[trigger] pair_entries(toks)[p] == (
            toks[2 * p],
            toks[2 * p + 1],
        ),
    decreases toks.len(),
{
    if toks.len() >= 2 {
        lemma_pair_entries_shape(toks.skip(2));
        assert(forall|p: int|
            1 <= p < pair_entries(toks).len() ==> pair_entries(toks)[p] == pair_entries(
                toks.skip(2),
            )[p - 1]);
        assert(forall|p: int|
            0 <= p < pair_entries(toks.skip(2)).len() ==> #[trigger] pair_entries(toks.skip(2))[p]
                == (toks.skip(2)[2 * p], toks.skip(2)[2 * p + 1]));
        assert(forall|p: int|
            1 <= p < pair_entries(toks).len() ==> #[trigger] pair_entries(toks)[p] == (
                toks[2 * p],
                toks[2 * p + 1],
            )) by {
            assert(forall|q: int| 0 <= q < toks.skip(2).len() ==> toks.skip(2)[q] == toks[q + 2]);
        }
    }
}

/// Serialises the map: one `path hash` line per entry, in order.
pub fn index_rep_of(map: &PathMap) -> (r: Vec<u8>)
    ensures
        r@ == index_file_rep(map@),
{
    let mut out: Vec<u8> = Vec::new();
    let n = map.len();
    let mut i: usize = 0;
    proof {
        assert(out@ =~= index_file_rep(map@.take(0)));
    }
    while i < n
        invariant
            0 <= i <= n,
            n == map@.len(),
            out@ == index_file_rep(map@.take(i as int)),
        decreases n - i,
    {
        let k = map.key_at(i);
        append_bytes(&mut out, k.as_slice());
        out.push(32);
        let v = map.val_at(i);
        append_bytes(&mut out, v.as_slice());
        out.push(10);
        proof {
            lemma_index_rep_snoc(map@, i as int);
            assert(out@ =~= index_file_rep(map@.take(i + 1)));
        }
        i = i + 1;
    }
    proof {
        assert(map@.take(n as int) =~= map@);
    }
    out
}

/// Serialising one more entry appends its line.
proof fn lemma_index_rep_snoc(es: Seq<(Seq<u8>, Seq<u8>)>, i: int)
    requires
        0 <= i < es.len(),
    ensures
        index_file_rep(es.take(i + 1)) == index_file_rep(es.take(i)) + entry_rep(es[i]),
    decreases i,
{
    if i == 0 {
        assert(es.take(0) =~= Seq::<(Seq<u8>, Seq<u8>)>::empty());
        assert(es.take(1)[0] == es[0]);
        assert(es.take(1).drop_first() =~= Seq::<(Seq<u8>, Seq<u8>)>::empty());
        assert(index_file_rep(es.take(1)) =~= index_file_rep(es.take(0)) + entry_rep(es[0]));
    } else {
        lemma_index_rep_snoc(es.drop_first(), i - 1);
        assert(es.take(i).drop_first() =~= es.drop_first().take(i - 1));
        assert(es.take(i + 1).drop_first() =~= es.drop_first().take(i));
        assert(es.take(i)[0] == es[0]);
        assert(es.take(i + 1)[0] == es[0]);
        assert(es.drop_first()[i - 1] == es[i]);
        assert(index_file_rep(es.take(i + 1)) =~= index_file_rep(es.take(i)) + entry_rep(es[i]));
    }
}

} // verus!
