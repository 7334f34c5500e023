//! An insertion-ordered map from path to hash, the shape shared by the
//! staging index and every flattened tree.

use vstd::prelude::*;

use crate::storage::bytes_eq;

verus! {

/// A pair sequence read as a map; a later pair with the same key wins.
pub open spec fn map_of(es: Seq<(Seq<u8>, Seq<u8>)>) -> Map<Seq<u8>, Seq<u8>>
    decreases es.len(),
{
    if es.len() == 0 {
        Map::empty()
    } else {
        let rest = map_of(es.drop_first());
        if rest.contains_key(es[0].0) {
            rest
        } else {
            rest.insert(es[0].0, es[0].1)
        }
    }
}

/// No key occurs twice.
pub open spec fn keys_unique(es: Seq<(Seq<u8>, Seq<u8>)>) -> bool {
    forall|i: int, j: int| 0 <= i < j < es.len() ==> es[i].0 != es[j].0
}

/// Replacing the pair with the given key, or appending one.
pub open spec fn insert_entry(es: Seq<(Seq<u8>, Seq<u8>)>, k: Seq<u8>, v: Seq<u8>) -> Seq<
    (Seq<u8>, Seq<u8>),
>
    decreases es.len(),
{
    if es.len() == 0 {
        seq![(k, v)]
    } else if es[0].0 == k {
        seq![(k, v)] + es.drop_first()
    } else {
        seq![es[0]] + insert_entry(es.drop_first(), k, v)
    }
}

/// Every pair of `b` inserted into `a`, in order.
pub open spec fn extend_entries(a: Seq<(Seq<u8>, Seq<u8>)>, b: Seq<(Seq<u8>, Seq<u8>)>) -> Seq<
    (Seq<u8>, Seq<u8>),
>
    decreases b.len(),
{
    if b.len() == 0 {
        a
    } else {
        extend_entries(insert_entry(a, b[0].0, b[0].1), b.drop_first())
    }
}

pub proof fn lemma_map_of_contains(es: Seq<(Seq<u8>, Seq<u8>)>, k: Seq<u8>)
    ensures
        map_of(es).contains_key(k) <==> exists|i: int| 0 <= i < es.len() && es[i].0 == k,
    decreases es.len(),
{
    if es.len() > 0 {
        lemma_map_of_contains(es.drop_first(), k);
        if map_of(es).contains_key(k) {
            if es[0].0 != k {
                let i = choose|i: int|
                    0 <= i < es.drop_first().len() && es.drop_first()[i].0 == k;
                assert(es[i + 1].0 == k);
            }
        }
        if exists|i: int| 0 <= i < es.len() && es[i].0 == k {
            let i = choose|i: int| 0 <= i < es.len() && es[i].0 == k;
            if i > 0 {
                assert(es.drop_first()[i - 1].0 == k);
            }
        }
    }
}

pub proof fn lemma_map_of_index(es: Seq<(Seq<u8>, Seq<u8>)>, i: int)
    requires
        keys_unique(es),
        0 <= i < es.len(),
    ensures
        map_of(es).contains_key(es[i].0),
        map_of(es)[es[i].0] == es[i].1,
    decreases es.len(),
{
    lemma_map_of_contains(es, es[i].0);
    if i == 0 {
        lemma_map_of_contains(es.drop_first(), es[0].0);
        assert(forall|j: int|
            0 <= j < es.drop_first().len() ==> es.drop_first()[j].0 != es[0].0);
    } else {
        assert(keys_unique(es.drop_first()));
        assert(es.drop_first()[i - 1] == es[i]);
        lemma_map_of_index(es.drop_first(), i - 1);
    }
}

pub proof fn lemma_insert_entry_unique(es: Seq<(Seq<u8>, Seq<u8>)>, k: Seq<u8>, v: Seq<u8>)
    requires
        keys_unique(es),
    ensures
        keys_unique(insert_entry(es, k, v)),
        map_of(insert_entry(es, k, v)) == map_of(es).insert(k, v),
        insert_entry(es, k, v).len() == if map_of(es).contains_key(k) {
            es.len()
        } else {
            es.len() + 1
        },
    decreases es.len(),
{
    lemma_map_of_contains(es, k);
    if es.len() == 0 {
        let r = seq![(k, v)];
        assert(r[0] == (k, v));
        assert(r.drop_first() =~= Seq::<(Seq<u8>, Seq<u8>)>::empty());
        assert(!map_of(r.drop_first()).contains_key(k));
        assert(map_of(r) == map_of(r.drop_first()).insert(k, v));
        assert(map_of(insert_entry(es, k, v)) =~= map_of(es).insert(k, v));
    } else if es[0].0 == k {
        let r = seq![(k, v)] + es.drop_first();
        assert(keys_unique(es.drop_first()));
        assert(forall|j: int|
            0 <= j < es.drop_first().len() ==> es.drop_first()[j].0 != es[0].0);
        assert(r.drop_first() =~= es.drop_first());
        assert(r[0] == (k, v));
        lemma_map_of_contains(es.drop_first(), k);
        assert(!map_of(es.drop_first()).contains_key(k));
        assert(map_of(r) == map_of(es.drop_first()).insert(k, v));
        assert(map_of(es) == map_of(es.drop_first()).insert(k, es[0].1));
        assert(insert_entry(es, k, v) == r);
        assert(map_of(insert_entry(es, k, v)) =~= map_of(es).insert(k, v));
    } else {
        assert(keys_unique(es.drop_first()));
        lemma_insert_entry_unique(es.drop_first(), k, v);
        let r = seq![es[0]] + insert_entry(es.drop_first(), k, v);
        assert(insert_entry(es, k, v) == r);
        assert(r.drop_first() =~= insert_entry(es.drop_first(), k, v));
        assert(r[0] == es[0]);
        lemma_map_of_contains(es.drop_first(), k);
        lemma_map_of_contains(insert_entry(es.drop_first(), k, v), es[0].0);
        assert forall|j: int| 0 <= j < insert_entry(es.drop_first(), k, v).len() implies
            insert_entry(es.drop_first(), k, v)[j].0 != es[0].0 by {
            lemma_insert_entry_keys(es.drop_first(), k, v, j);
        }
        assert(keys_unique(r)) by {
            assert(forall|j: int| 0 <= j < r.drop_first().len() ==> r.drop_first()[j].0 != r[0].0);
        }
        assert(!map_of(insert_entry(es.drop_first(), k, v)).contains_key(es[0].0));
        assert(!map_of(es.drop_first()).contains_key(es[0].0));
        assert(map_of(r) == map_of(insert_entry(es.drop_first(), k, v)).insert(
            es[0].0,
            es[0].1,
        ));
        assert(map_of(insert_entry(es, k, v)) =~= map_of(es).insert(k, v));
    }
}

/// Each key in the result is the inserted key or one already present.
pub proof fn lemma_insert_entry_keys(es: Seq<(Seq<u8>, Seq<u8>)>, k: Seq<u8>, v: Seq<u8>, j: int)
    requires
        0 <= j < insert_entry(es, k, v).len(),
    ensures
        insert_entry(es, k, v)[j].0 == k || exists|i: int| 0 <= i < es.len() && es[i].0
            == insert_entry(es, k, v)[j].0,
    decreases es.len(),
{
    if es.len() > 0 && es[0].0 != k {
        if j > 0 {
            lemma_insert_entry_keys(es.drop_first(), k, v, j - 1);
            if insert_entry(es, k, v)[j].0 != k {
                let i = choose|i: int|
                    0 <= i < es.drop_first().len() && es.drop_first()[i].0 == insert_entry(
                        es.drop_first(),
                        k,
                        v,
                    )[j - 1].0;
                assert(es[i + 1].0 == insert_entry(es, k, v)[j].0);
            }
        }
    }
}

/// If the key is absent, inserting appends.
pub proof fn lemma_insert_entry_absent(es: Seq<(Seq<u8>, Seq<u8>)>, k: Seq<u8>, v: Seq<u8>)
    requires
        forall|i: int| 0 <= i < es.len() ==> es[i].0 != k,
    ensures
        insert_entry(es, k, v) == es.push((k, v)),
    decreases es.len(),
{
    if es.len() == 0 {
        assert(insert_entry(es, k, v) =~= es.push((k, v)));
    } else {
        assert(forall|i: int|
            0 <= i < es.drop_first().len() ==> es.drop_first()[i].0 != k);
        lemma_insert_entry_absent(es.drop_first(), k, v);
        assert(insert_entry(es, k, v) =~= es.push((k, v)));
    }
}

pub proof fn lemma_extend_entries_unique(a: Seq<(Seq<u8>, Seq<u8>)>, b: Seq<(Seq<u8>, Seq<u8>)>)
    requires
        keys_unique(a),
    ensures
        keys_unique(extend_entries(a, b)),
        map_of(extend_entries(a, b)) == map_of(a).union_prefer_right(map_of(b)),
    decreases b.len(),
{
    if b.len() == 0 {
        assert(map_of(extend_entries(a, b)) =~= map_of(a).union_prefer_right(map_of(b)));
    } else {
        lemma_insert_entry_unique(a, b[0].0, b[0].1);
        lemma_extend_entries_unique(insert_entry(a, b[0].0, b[0].1), b.drop_first());
        lemma_map_of_contains(b.drop_first(), b[0].0);
        assert(map_of(extend_entries(a, b)) =~= map_of(a).union_prefer_right(map_of(b)));
    }
}


/// Extending by two batches is extending by their concatenation.
pub proof fn lemma_extend_entries_concat(
    m: Seq<(Seq<u8>, Seq<u8>)>,
    a: Seq<(Seq<u8>, Seq<u8>)>,
    b: Seq<(Seq<u8>, Seq<u8>)>,
)
    ensures
        extend_entries(extend_entries(m, a), b) == extend_entries(m, a + b),
    decreases a.len(),
{
    if a.len() == 0 {
        assert(a + b =~= b);
    } else {
        lemma_extend_entries_concat(insert_entry(m, a[0].0, a[0].1), a.drop_first(), b);
        assert((a + b)[0] == a[0]);
        assert((a + b).drop_first() =~= a.drop_first() + b);
    }
}

/// Extending by one pair is inserting it.
pub proof fn lemma_extend_entries_one(m: Seq<(Seq<u8>, Seq<u8>)>, k: Seq<u8>, v: Seq<u8>)
    ensures
        extend_entries(m, seq![(k, v)]) == insert_entry(m, k, v),
{
    let b = seq![(k, v)];
    assert(b[0] == (k, v));
    assert(b.drop_first() =~= Seq::<(Seq<u8>, Seq<u8>)>::empty());
    assert(extend_entries(m, b) == extend_entries(insert_entry(m, k, v), b.drop_first()));
    assert(extend_entries(insert_entry(m, k, v), b.drop_first()) == insert_entry(m, k, v));
}

/// Reading concatenated pair lists as maps: the later batch wins.
pub proof fn lemma_map_of_concat(a: Seq<(Seq<u8>, Seq<u8>)>, b: Seq<(Seq<u8>, Seq<u8>)>)
    ensures
        map_of(a + b) == map_of(a).union_prefer_right(map_of(b)),
    decreases a.len(),
{
    if a.len() == 0 {
        assert(a + b =~= b);
        assert(map_of(a).union_prefer_right(map_of(b)) =~= map_of(b));
    } else {
        lemma_map_of_concat(a.drop_first(), b);
        assert((a + b).drop_first() =~= a.drop_first() + b);
        assert((a + b)[0] == a[0]);
        assert(map_of(a + b) =~= map_of(a).union_prefer_right(map_of(b)));
    }
}

/// Appending one pair binds its key, whatever came before.
pub proof fn lemma_map_of_snoc(es: Seq<(Seq<u8>, Seq<u8>)>, k: Seq<u8>, v: Seq<u8>)
    ensures
        map_of(es.push((k, v))) == map_of(es).insert(k, v),
{
    lemma_map_of_concat(es, seq![(k, v)]);
    assert(es.push((k, v)) =~= es + seq![(k, v)]);
    assert(seq![(k, v)].drop_first() =~= Seq::<(Seq<u8>, Seq<u8>)>::empty());
    assert(seq![(k, v)][0] == (k, v));
    assert(map_of(Seq::<(Seq<u8>, Seq<u8>)>::empty()) == Map::<Seq<u8>, Seq<u8>>::empty());
    assert(!map_of(seq![(k, v)].drop_first()).contains_key(k));
    assert(map_of(seq![(k, v)]) =~= Map::<Seq<u8>, Seq<u8>>::empty().insert(k, v));
    assert(map_of(es).union_prefer_right(Map::<Seq<u8>, Seq<u8>>::empty().insert(k, v))
        =~= map_of(es).insert(k, v));
}

/// The executable map: a vector of (path, hash) pairs with unique paths.
pub struct PathMap {
    entries: Vec<(Vec<u8>, Vec<u8>)>,
}

impl View for PathMap {
    type V = Seq<(Seq<u8>, Seq<u8>)>;

    closed spec fn view(&self) -> Seq<(Seq<u8>, Seq<u8>)> {
        Seq::new(self.entries@.len(), |i: int| (self.entries@[i].0@, self.entries@[i].1@))
    }
}

impl PathMap {
    #[verifier::type_invariant]
    spec fn wf(&self) -> bool {
        keys_unique(self@)
    }

    /// An empty map.
    pub fn new() -> (s: PathMap)
        ensures
            s@ == Seq::<(Seq<u8>, Seq<u8>)>::empty(),
    {
        let s = PathMap { entries: Vec::new() };
        proof {
            assert(s@ =~= Seq::<(Seq<u8>, Seq<u8>)>::empty());
        }
        s
    }

    /// How many pairs the map holds.
    pub fn len(&self) -> (n: usize)
        ensures
            n == self@.len(),
            keys_unique(self@),
    {
        proof {
            use_type_invariant(&*self);
        }
        self.entries.len()
    }

    /// The path of the pair at the given position.
    pub fn key_at(&self, i: usize) -> (r: &Vec<u8>)
        requires
            i < self@.len(),
        ensures
            r@ == self@[i as int].0,
            keys_unique(self@),
    {
        proof {
            use_type_invariant(&*self);
        }
        &self.entries[i].0
    }

    /// The hash of the pair at the given position.
    pub fn val_at(&self, i: usize) -> (r: &Vec<u8>)
        requires
            i < self@.len(),
        ensures
            r@ == self@[i as int].1,
            keys_unique(self@),
    {
        proof {
            use_type_invariant(&*self);
        }
        &self.entries[i].1
    }

    /// The hash filed under the given path, if any.
    pub fn get(&self, k: &[u8]) -> (r: Option<&Vec<u8>>)
        ensures
            keys_unique(self@),
            match r {
                Some(v) => map_of(self@).contains_key(k@) && v@ == map_of(self@)[k@],
                None => !map_of(self@).contains_key(k@),
            },
    {
        proof {
            use_type_invariant(&*self);
        }
        let n = self.entries.len();
        let mut i: usize = 0;
        while i < n
            invariant
                0 <= i <= n,
                n == self.entries.len(),
                n == self@.len(),
                keys_unique(self@),
                forall|j: int| 0 <= j < self@.len() ==> self@[j] == (
                    self.entries@[j].0@,
                    self.entries@[j].1@,
                ),
                forall|j: int| 0 <= j < i ==> self@[j].0 != k@,
            decreases n - i,
        {
            if bytes_eq(self.entries[i].0.as_slice(), k) {
                proof {
                    lemma_map_of_index(self@, i as int);
                }
                return Some(&self.entries[i].1);
            }
            i = i + 1;
        }
        proof {
            lemma_map_of_contains(self@, k@);
        }
        None
    }

    /// Whether a pair with the given path exists.
    pub fn contains_key(&self, k: &[u8]) -> (r: bool)
        ensures
            keys_unique(self@),
            r == map_of(self@).contains_key(k@),
    {
        self.get(k).is_some()
    }

    /// Files a hash under a path, replacing the pair already there or
    /// appending a new one.
    pub fn insert(&mut self, k: Vec<u8>, v: Vec<u8>)
        ensures
            final(self)@ == insert_entry(old(self)@, k@, v@),
            map_of(final(self)@) == map_of(old(self)@).insert(k@, v@),
            keys_unique(old(self)@),
    {
        proof {
            use_type_invariant(&*self);
            lemma_insert_entry_unique(self@, k@, v@);
        }
        let ghost old_view = self@;
        let mut es: Vec<(Vec<u8>, Vec<u8>)> = Vec::new();
        core::mem::swap(&mut es, &mut self.entries);
        let n = es.len();
        let mut i: usize = 0;
        while i < n
            invariant
                0 <= i <= n,
                n == es.len(),
                old_view == old(self)@,
                old_view.len() == n,
                forall|j: int| 0 <= j < n ==> old_view[j] == (es@[j].0@, es@[j].1@),
                keys_unique(old_view),
                forall|j: int| 0 <= j < i ==> old_view[j].0 != k@,
            decreases n - i,
        {
            if bytes_eq(es[i].0.as_slice(), k.as_slice()) {
                proof {
                    lemma_insert_entry_at(old_view, k@, v@, i as int);
                    lemma_insert_entry_unique(old_view, k@, v@);
                }
                let ghost new_view = old_view.update(i as int, (k@, v@));
                es[i] = (k, v);
                proof {
                    assert(keys_unique(new_view));
                    assert(Seq::new(es@.len(), |j: int| (es@[j].0@, es@[j].1@)) =~= new_view);
                }
                self.entries = es;
                proof {
                    assert(self@ =~= insert_entry(old_view, k@, v@));
                }
                return ;
            }
            i = i + 1;
        }
        proof {
            lemma_insert_entry_absent(old_view, k@, v@);
            lemma_insert_entry_unique(old_view, k@, v@);
        }
        let ghost new_view = old_view.push((k@, v@));
        es.push((k, v));
        proof {
            assert(keys_unique(new_view));
            assert(Seq::new(es@.len(), |j: int| (es@[j].0@, es@[j].1@)) =~= new_view);
        }
        self.entries = es;
        proof {
            assert(self@ =~= insert_entry(old_view, k@, v@));
        }
    }

    /// Inserts every pair of `other`, in order.
    pub fn extend(&mut self, other: &PathMap)
        ensures
            final(self)@ == extend_entries(old(self)@, other@),
            map_of(final(self)@) == map_of(old(self)@).union_prefer_right(map_of(other@)),
            keys_unique(old(self)@),
    {
        proof {
            use_type_invariant(&*self);
            use_type_invariant(&*other);
            lemma_extend_entries_unique(old(self)@, other@);
        }
        let n = other.len();
        let mut i: usize = 0;
        while i < n
            invariant
                0 <= i <= n,
                n == other@.len(),
                self@ == extend_entries(old(self)@, other@.take(i as int)),
            decreases n - i,
        {
            let k = other.key_at(i);
            let v = other.val_at(i);
            let k2 = crate::text::copy_range(k.as_slice(), 0, k.len());
            let v2 = crate::text::copy_range(v.as_slice(), 0, v.len());
            proof {
                assert(k2@ =~= other@[i as int].0);
                assert(v2@ =~= other@[i as int].1);
            }
            self.insert(k2, v2);
            proof {
                lemma_extend_entries_step(old(self)@, other@, i as int);
            }
            i = i + 1;
        }
        proof {
            assert(other@.take(n as int) =~= other@);
            lemma_extend_entries_unique(old(self)@, other@);
        }
    }
}

/// Inserting a key found at position `i` replaces that pair in place.
proof fn lemma_insert_entry_at(es: Seq<(Seq<u8>, Seq<u8>)>, k: Seq<u8>, v: Seq<u8>, i: int)
    requires
        keys_unique(es),
        0 <= i < es.len(),
        es[i].0 == k,
        forall|j: int| 0 <= j < i ==> es[j].0 != k,
    ensures
        insert_entry(es, k, v) == es.update(i, (k, v)),
    decreases es.len(),
{
    if i == 0 {
        assert(insert_entry(es, k, v) =~= es.update(0, (k, v)));
    } else {
        assert(keys_unique(es.drop_first()));
        assert(es.drop_first()[i - 1] == es[i]);
        lemma_insert_entry_at(es.drop_first(), k, v, i - 1);
        assert(insert_entry(es, k, v) =~= es.update(i, (k, v)));
    }
}

/// One step of `extend_entries`.
pub proof fn lemma_extend_entries_step(a: Seq<(Seq<u8>, Seq<u8>)>, b: Seq<(Seq<u8>, Seq<u8>)>, i: int)
    requires
        0 <= i < b.len(),
    ensures
        insert_entry(extend_entries(a, b.take(i)), b[i].0, b[i].1) == extend_entries(
            a,
            b.take(i + 1),
        ),
    decreases i,
{
    if i == 0 {
        assert(b.take(0) =~= Seq::<(Seq<u8>, Seq<u8>)>::empty());
        assert(extend_entries(a, b.take(0)) == a);
        let t1 = b.take(1);
        assert(t1.len() == 1);
        assert(t1[0] == b[0]);
        assert(t1.drop_first() =~= Seq::<(Seq<u8>, Seq<u8>)>::empty());
        assert(extend_entries(a, t1) == extend_entries(
            insert_entry(a, t1[0].0, t1[0].1),
            t1.drop_first(),
        ));
        assert(extend_entries(insert_entry(a, b[0].0, b[0].1), t1.drop_first()) == insert_entry(
            a,
            b[0].0,
            b[0].1,
        ));
    } else {
        let b2 = b.drop_first();
        let a1 = insert_entry(a, b[0].0, b[0].1);
        lemma_extend_entries_step(a1, b2, i - 1);
        assert(b.take(i).drop_first() =~= b2.take(i - 1));
        assert(b.take(i + 1).drop_first() =~= b2.take(i));
        assert(b.take(i)[0] == b[0]);
        assert(b.take(i + 1)[0] == b[0]);
        assert(b2[i - 1] == b[i]);
        assert(extend_entries(a, b.take(i)) == extend_entries(a1, b2.take(i - 1)));
        assert(extend_entries(a, b.take(i + 1)) == extend_entries(a1, b2.take(i)));
    }
}

} // verus!
