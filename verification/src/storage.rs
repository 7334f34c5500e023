//! A flat in-memory file store: paths mapped to byte contents.
//!
//! The repository treats this store as its only persistence layer; the
//! surrounding application mirrors it to and from a real directory.

use vstd::prelude::*;

verus! {

/// Interprets a sequence of (path, content) entries as a map, later
/// entries winning over earlier ones.
pub open spec fn entries_map(es: Seq<(Vec<u8>, Vec<u8>)>) -> Map<Seq<u8>, Seq<u8>>
    decreases es.len(),
{
    if es.len() == 0 {
        Map::empty()
    } else {
        entries_map(es.drop_last()).insert(es.last().0@, es.last().1@)
    }
}

/// No path occurs twice among the entries.
pub open spec fn entries_unique(es: Seq<(Vec<u8>, Vec<u8>)>) -> bool {
    forall|i: int, j: int| 0 <= i < j < es.len() ==> es[i].0@ != es[j].0@
}

proof fn lemma_entries_map_contains(es: Seq<(Vec<u8>, Vec<u8>)>, k: Seq<u8>)
    ensures
        entries_map(es).contains_key(k) <==> exists|i: int| 0 <= i < es.len() && es[i].0@ == k,
    decreases es.len(),
{
    if es.len() > 0 {
        lemma_entries_map_contains(es.drop_last(), k);
        if entries_map(es).contains_key(k) {
            if es.last().0@ != k {
                let i = choose|i: int| 0 <= i < es.drop_last().len() && es.drop_last()[i].0@ == k;
                assert(es[i].0@ == k);
            }
        }
        if exists|i: int| 0 <= i < es.len() && es[i].0@ == k {
            let i = choose|i: int| 0 <= i < es.len() && es[i].0@ == k;
            if i < es.len() - 1 {
                assert(es.drop_last()[i].0@ == k);
            }
        }
    }
}

proof fn lemma_entries_map_index(es: Seq<(Vec<u8>, Vec<u8>)>, i: int)
    requires
        entries_unique(es),
        0 <= i < es.len(),
    ensures
        entries_map(es).contains_key(es[i].0@),
        entries_map(es)[es[i].0@] == es[i].1@,
    decreases es.len(),
{
    lemma_entries_map_contains(es, es[i].0@);
    if i < es.len() - 1 {
        assert(entries_unique(es.drop_last()));
        assert(es.drop_last()[i] == es[i]);
        lemma_entries_map_index(es.drop_last(), i);
        assert(es.last().0@ != es[i].0@);
    }
}

proof fn lemma_entries_map_dom_len(es: Seq<(Vec<u8>, Vec<u8>)>)
    requires
        entries_unique(es),
    ensures
        entries_map(es).dom().finite(),
        entries_map(es).dom().len() == es.len(),
    decreases es.len(),
{
    if es.len() > 0 {
        assert(entries_unique(es.drop_last()));
        lemma_entries_map_dom_len(es.drop_last());
        lemma_entries_map_contains(es.drop_last(), es.last().0@);
        assert(forall|i: int| 0 <= i < es.drop_last().len() ==> es.drop_last()[i].0@ != es.last().0@);
        assert(!entries_map(es.drop_last()).contains_key(es.last().0@));
        vstd::set::axiom_set_insert_finite(entries_map(es.drop_last()).dom(), es.last().0@);
        vstd::set::axiom_set_insert_len(entries_map(es.drop_last()).dom(), es.last().0@);
        assert(entries_map(es).dom() =~= entries_map(es.drop_last()).dom().insert(es.last().0@));
    }
}

proof fn lemma_entries_map_update(es: Seq<(Vec<u8>, Vec<u8>)>, i: int, e: (Vec<u8>, Vec<u8>))
    requires
        entries_unique(es),
        0 <= i < es.len(),
        es[i].0@ == e.0@,
    ensures
        entries_map(es.update(i, e)) == entries_map(es).insert(e.0@, e.1@),
    decreases es.len(),
{
    let es2 = es.update(i, e);
    if i == es.len() - 1 {
        assert(es2.drop_last() =~= es.drop_last());
        assert(es2.last() == e);
        assert(entries_map(es2) =~= entries_map(es).insert(e.0@, e.1@));
    } else {
        assert(entries_unique(es.drop_last()));
        assert(es.drop_last()[i] == es[i]);
        lemma_entries_map_update(es.drop_last(), i, e);
        assert(es2.drop_last() =~= es.drop_last().update(i, e));
        assert(es2.last() == es.last());
        assert(es.last().0@ != e.0@);
        assert(entries_map(es2) =~= entries_map(es).insert(e.0@, e.1@));
    }
}

proof fn lemma_entries_map_remove(es: Seq<(Vec<u8>, Vec<u8>)>, i: int)
    requires
        entries_unique(es),
        0 <= i < es.len(),
    ensures
        entries_map(es.remove(i)) == entries_map(es).remove(es[i].0@),
    decreases es.len(),
{
    let k = es[i].0@;
    if i == es.len() - 1 {
        assert(es.remove(i) =~= es.drop_last());
        lemma_entries_map_contains(es.drop_last(), k);
        assert(forall|j: int| 0 <= j < es.drop_last().len() ==> es.drop_last()[j].0@ != k);
        assert(!entries_map(es.drop_last()).contains_key(k));
        assert(entries_map(es.drop_last()) =~= entries_map(es).remove(k));
    } else {
        assert(entries_unique(es.drop_last()));
        assert(es.drop_last()[i] == es[i]);
        lemma_entries_map_remove(es.drop_last(), i);
        assert(es.remove(i).drop_last() =~= es.drop_last().remove(i));
        assert(es.remove(i).last() == es.last());
        assert(es.last().0@ != k);
        assert(entries_map(es.remove(i)) =~= entries_map(es).remove(k));
    }
}

/// Compares two byte strings for equality.
pub fn bytes_eq(a: &[u8], b: &[u8]) -> (r: bool)
    ensures
        r <==> a@ == b@,
{
    if a.len() != b.len() {
        proof {
            assert(a@.len() != b@.len());
        }
        return false;
    }
    let mut i: usize = 0;
    while i < a.len()
        invariant
            0 <= i <= a.len(),
            a@.len() == b@.len(),
            forall|j: int| 0 <= j < i ==> a@[j] == b@[j],
        decreases a.len() - i,
    {
        if a[i] != b[i] {
            return false;
        }
        i = i + 1;
    }
    proof {
        assert(a@ =~= b@);
    }
    true
}

/// A flat file store. Its abstract value is a map from path to content.
pub struct Storage {
    entries: Vec<(Vec<u8>, Vec<u8>)>,
}

impl View for Storage {
    type V = Map<Seq<u8>, Seq<u8>>;

    closed spec fn view(&self) -> Map<Seq<u8>, Seq<u8>> {
        entries_map(self.entries@)
    }
}

impl Storage {
    #[verifier::type_invariant]
    spec fn wf(&self) -> bool {
        entries_unique(self.entries@)
    }

    /// An empty store.
    pub fn new() -> (s: Storage)
        ensures
            s@ == Map::<Seq<u8>, Seq<u8>>::empty(),
    {
        Storage { entries: Vec::new() }
    }

    /// The number of files held.
    pub fn file_count(&self) -> (n: usize)
        ensures
            self@.dom().finite(),
            n == self@.dom().len(),
    {
        proof {
            use_type_invariant(&*self);
            lemma_entries_map_dom_len(self.entries@);
        }
        self.entries.len()
    }

    /// Whether a file exists at the given path.
    pub fn contains(&self, path: &[u8]) -> (r: bool)
        ensures
            r == self@.contains_key(path@),
    {
        self.get(path).is_some()
    }

    /// The content of the file at the given path, if one exists.
    pub fn get(&self, path: &[u8]) -> (r: Option<&Vec<u8>>)
        ensures
            match r {
                Some(c) => self@.contains_key(path@) && c@ == self@[path@],
                None => !self@.contains_key(path@),
            },
    {
        proof {
            use_type_invariant(&*self);
        }
        let n = self.entries.len();
        let mut i: usize = 0;
        while i < n
            invariant
                0 <= i <= n,
                n == self.entries.len(),
                entries_unique(self.entries@),
                self@ == entries_map(self.entries@),
                forall|j: int| 0 <= j < i ==> self.entries@[j].0@ != path@,
            decreases n - i,
        {
            if bytes_eq(self.entries[i].0.as_slice(), path) {
                proof {
                    lemma_entries_map_index(self.entries@, i as int);
                }
                return Some(&self.entries[i].1);
            }
            i = i + 1;
        }
        proof {
            lemma_entries_map_contains(self.entries@, path@);
        }
        None
    }

    /// Writes a file, replacing any previous content at the path.
    pub fn set(&mut self, path: Vec<u8>, content: Vec<u8>)
        ensures
            final(self)@ == old(self)@.insert(path@, content@),
    {
        proof {
            use_type_invariant(&*self);
        }
        let mut es: Vec<(Vec<u8>, Vec<u8>)> = Vec::new();
        core::mem::swap(&mut es, &mut self.entries);
        let n = es.len();
        let mut i: usize = 0;
        while i < n
            invariant
                0 <= i <= n,
                n == es.len(),
                es@ == old(self).entries@,
                old(self)@ == entries_map(es@),
                entries_unique(es@),
                forall|j: int| 0 <= j < i ==> es@[j].0@ != path@,
            decreases n - i,
        {
            if bytes_eq(es[i].0.as_slice(), path.as_slice()) {
                proof {
                    lemma_entries_map_update(es@, i as int, (path, content));
                }
                es[i] = (path, content);
                self.entries = es;
                return ;
            }
            i = i + 1;
        }
        proof {
            lemma_entries_map_contains(es@, path@);
            assert(es@.push((path, content)).drop_last() =~= es@);
        }
        es.push((path, content));
        self.entries = es;
    }

    /// The paths of every file held, each occurring once.
    pub fn list_paths(&self) -> (r: Vec<Vec<u8>>)
        ensures
            forall|i: int| 0 <= i < r.deep_view().len() ==> self@.contains_key(
                #[trigger] r.deep_view()[i],
            ),
            r.deep_view().len() == self@.dom().len(),
    {
        proof {
            use_type_invariant(&*self);
            lemma_entries_map_dom_len(self.entries@);
        }
        let n = self.entries.len();
        let mut out: Vec<Vec<u8>> = Vec::new();
        let mut i: usize = 0;
        while i < n
            invariant
                0 <= i <= n,
                n == self.entries.len(),
                entries_unique(self.entries@),
                self@ == entries_map(self.entries@),
                out.deep_view().len() == i,
                forall|j: int| 0 <= j < i ==> #[trigger] out.deep_view()[j]
                    == self.entries@[j].0@,
            decreases n - i,
        {
            let ghost pre = out.deep_view();
            let p = crate::text::copy_range(self.entries[i].0.as_slice(), 0, self.entries[i].0.len());
            out.push(p);
            proof {
                assert(out.deep_view() =~~= pre.push(self.entries@[i as int].0@));
            }
            i = i + 1;
        }
        proof {
            assert forall|j: int| 0 <= j < out.deep_view().len() implies self@.contains_key(
                #[trigger] out.deep_view()[j],
            ) by {
                lemma_entries_map_index(self.entries@, j);
            }
        }
        out
    }

    /// Deletes the file at the given path, if one exists.
    pub fn remove(&mut self, path: &[u8])
        ensures
            final(self)@ == old(self)@.remove(path@),
    {
        proof {
            use_type_invariant(&*self);
        }
        let mut es: Vec<(Vec<u8>, Vec<u8>)> = Vec::new();
        core::mem::swap(&mut es, &mut self.entries);
        let n = es.len();
        let mut i: usize = 0;
        while i < n
            invariant
                0 <= i <= n,
                n == es.len(),
                es@ == old(self).entries@,
                old(self)@ == entries_map(es@),
                entries_unique(es@),
                forall|j: int| 0 <= j < i ==> es@[j].0@ != path@,
            decreases n - i,
        {
            if bytes_eq(es[i].0.as_slice(), path) {
                proof {
                    lemma_entries_map_remove(es@, i as int);
                }
                es.remove(i);
                self.entries = es;
                return ;
            }
            i = i + 1;
        }
        proof {
            lemma_entries_map_contains(es@, path@);
            assert(!entries_map(es@).contains_key(path@));
            assert(entries_map(es@).remove(path@) =~= entries_map(es@));
        }
        self.entries = es;
    }
}

} // verus!
