//! Commit objects and the in-memory commit graph: writing a commit,
//! resolving one hash by hash, and ancestor queries.

use vstd::prelude::*;

use crate::codec::deflate;
use crate::codec::deflate_of;
use crate::codec::inflate_of;
use crate::digest::sha1_hex;
use crate::digest::sha1_hex_of;
use crate::file::cat_file;
use crate::file::lemma_strip_tag;
use crate::file::object_content;
use crate::file::object_readable;
use crate::paths::commit_tag;
use crate::paths::commit_tag_vec;
use crate::paths::object_path;
use crate::paths::object_path_of;
use crate::storage::Storage;
use crate::text::append_bytes;
use crate::text::lines_of;

verus! {

/// Why a commit could not be written.
#[derive(Clone, Copy, PartialEq, Eq, Structural, Debug)]
pub enum CommitError {
    IOError,
}

/// The parent lines of a commit's serialized form: each parent hash
/// followed by a newline.
pub open spec fn parent_block(ps: Seq<Seq<u8>>) -> Seq<u8>
    decreases ps.len(),
{
    if ps.len() == 0 {
        seq![]
    } else {
        parent_block(ps.drop_last()) + ps.last() + seq![10u8]
    }
}

/// The serialized form of a commit, which is also what its digest is
/// computed over: the type tag, the tree hash, the parent lines, an
/// empty line, then the message.
pub open spec fn commit_content(
    message: Seq<u8>,
    parents: Seq<Seq<u8>>,
    tree_hash: Seq<u8>,
) -> Seq<u8> {
    commit_tag() + tree_hash + seq![10u8] + parent_block(parents) + seq![10u8] + message
}

/// The digest of such a commit.
pub open spec fn commit_hash_of(
    message: Seq<u8>,
    parents: Seq<Seq<u8>>,
    tree_hash: Seq<u8>,
) -> Seq<u8> {
    sha1_hex_of(commit_content(message, parents, tree_hash))
}

/// Serialises a commit, hashes it, and stores it compressed under the
/// digest's derived path.
pub fn write_commit(
    store: &mut Storage,
    message: &[u8],
    parents: &Vec<Vec<u8>>,
    tree_hash: &[u8],
) -> (r: Result<Vec<u8>, CommitError>)
    ensures
        match r {
            Ok(h) => {
                &&& h@ == commit_hash_of(message@, parents.deep_view(), tree_hash@)
                &&& h@.len() == 40
                &&& final(store)@ == old(store)@.insert(
                    object_path(h@),
                    deflate_of(commit_content(message@, parents.deep_view(), tree_hash@)),
                )
                &&& inflate_of(deflate_of(commit_content(message@, parents.deep_view(), tree_hash@)))
                    == Some(commit_content(message@, parents.deep_view(), tree_hash@))
            },
            Err(_) => false,
        },
{
    let mut content = commit_tag_vec();
    append_bytes(&mut content, tree_hash);
    content.push(10);
    let n = parents.len();
    let mut i: usize = 0;
    proof {
        assert(parents.deep_view().take(0) =~= Seq::<Seq<u8>>::empty());
        assert(content@ =~= commit_tag() + tree_hash@ + seq![10u8] + parent_block(
            parents.deep_view().take(0),
        ));
    }
    while i < n
        invariant
            0 <= i <= n,
            n == parents@.len(),
            parents.deep_view().len() == n,
            forall|k: int| 0 <= k < n ==> parents.deep_view()[k] == parents@[k]@,
            content@ == commit_tag() + tree_hash@ + seq![10u8] + parent_block(
                parents.deep_view().take(i as int),
            ),
        decreases n - i,
    {
        append_bytes(&mut content, parents[i].as_slice());
        content.push(10);
        proof {
            let pv = parents.deep_view();
            assert(pv.take(i + 1).drop_last() =~= pv.take(i as int));
            assert(pv.take(i + 1).last() == pv[i as int]);
            assert(content@ =~= commit_tag() + tree_hash@ + seq![10u8] + parent_block(
                pv.take(i + 1),
            ));
        }
        i = i + 1;
    }
    content.push(10);
    append_bytes(&mut content, message);
    proof {
        assert(parents.deep_view().take(n as int) =~= parents.deep_view());
        assert(content@ =~= commit_content(message@, parents.deep_view(), tree_hash@));
    }
    let hash = sha1_hex(content.as_slice());
    let compressed = deflate(content.as_slice());
    let path = object_path_of(hash.as_slice());
    store.set(path, compressed);
    Ok(hash)
}

/// An in-memory view over the persisted commit graph, rebuilt per query.
pub struct CommitNode {
    pub parents: Vec<CommitNode>,
    pub hash: Vec<u8>,
    pub tree_hash: Vec<u8>,
}

/// The abstract value of a resolved commit.
#[verifier::ext_equal]
pub ghost struct CommitV {
    pub hash: Seq<u8>,
    pub tree_hash: Seq<u8>,
    pub parents: Seq<CommitV>,
}

/// The degraded node an unreadable commit resolves to.
pub open spec fn null_commit() -> CommitV {
    CommitV { hash: Seq::empty(), tree_hash: Seq::empty(), parents: Seq::empty() }
}

pub open spec fn commit_view(c: CommitNode) -> CommitV
    decreases c,
{
    CommitV {
        hash: c.hash@,
        tree_hash: c.tree_hash@,
        parents: Seq::new(
            c.parents@.len(),
            |i: int|
                if 0 <= i < c.parents@.len() {
                    commit_view(c.parents@[i])
                } else {
                    null_commit()
                },
        ),
    }
}

impl View for CommitNode {
    type V = CommitV;

    open spec fn view(&self) -> CommitV {
        commit_view(*self)
    }
}

/// What resolving a hash yields, with `fuel` bounding the recursion: the
/// stored commit's tree hash and its parents, resolved in turn, up to
/// the first empty line. An unreadable object, exhausted fuel, or a
/// missing empty line yields the degraded node.
pub open spec fn resolve_commit(files: Map<Seq<u8>, Seq<u8>>, hash: Seq<u8>, fuel: nat) -> CommitV
    decreases fuel, 0int, 0int,
{
    if fuel == 0 {
        null_commit()
    } else if hash.len() < 2 || !object_readable(files, hash) {
        null_commit()
    } else {
        let ls = lines_of(object_content(files, hash));
        match parse_parents(files, ls, 1, (fuel - 1) as nat) {
            None => null_commit(),
            Some(ps) => CommitV { hash, tree_hash: ls[0], parents: ps },
        }
    }
}

/// The parents named by the lines from position `i` up to the first
/// empty line, each resolved; `None` if no empty line follows.
pub open spec fn parse_parents(
    files: Map<Seq<u8>, Seq<u8>>,
    ls: Seq<Seq<u8>>,
    i: int,
    fuel: nat,
) -> Option<Seq<CommitV>>
    decreases fuel, 1int, ls.len() - i,
{
    if i < 0 || i >= ls.len() {
        None
    } else if ls[i].len() == 0 {
        Some(seq![])
    } else {
        match parse_parents(files, ls, i + 1, fuel) {
            None => None,
            Some(rest) => Some(seq![resolve_commit(files, ls[i], fuel)] + rest),
        }
    }
}

/// Whether some commit reachable through parent links carries this hash.
pub open spec fn is_ancestor(c: CommitV, h: Seq<u8>) -> bool
    decreases c,
{
    exists|i: int|
        0 <= i < c.parents.len() && ((#[trigger] c.parents[i]).hash == h || is_ancestor(
            c.parents[i],
            h,
        ))
}

/// The most recent common ancestor, as the graph walk finds it: a node
/// is its own most recent ancestor relative to anything that already
/// contains it; otherwise the first parent, left to right, that yields
/// one.
pub open spec fn mrca(a: CommitV, b: CommitV) -> Option<CommitV>
    decreases a,
{
    if is_ancestor(b, a.hash) {
        Some(a)
    } else {
        mrca_list(a.parents, b)
    }
}

pub open spec fn mrca_list(ps: Seq<CommitV>, b: CommitV) -> Option<CommitV>
    decreases ps,
{
    if ps.len() == 0 {
        None
    } else {
        match mrca(ps[0], b) {
            Some(x) => Some(x),
            None => mrca_list(ps.drop_first(), b),
        }
    }
}

impl CommitNode {
    /// Resolves the commit stored under the given hash, following parent
    /// links; the store's own size bounds the recursion.
    pub fn new(store: &Storage, hash: Vec<u8>) -> (c: CommitNode)
        ensures
            c@ == resolve_commit(store@, hash@, store@.dom().len()),
    {
        let fuel = store.file_count();
        CommitNode::new_fuel(store, hash, fuel)
    }

    fn new_fuel(store: &Storage, hash: Vec<u8>, fuel: usize) -> (c: CommitNode)
        ensures
            c@ == resolve_commit(store@, hash@, fuel as nat),
        decreases fuel,
    {
        if fuel == 0 || hash.len() < 2 {
            return CommitNode::null_node();
        }
        let content = match cat_file(store, hash.as_slice()) {
            Err(_) => {
                return CommitNode::null_node();
            },
            Ok(c) => c,
        };
        let lines = crate::text::split_lines(content.as_slice());
        let ghost ls = lines_of(content@);
        let ghost subfuel = (fuel - 1) as nat;
        proof {
            assert(lines.deep_view() =~= ls);
            crate::text::lemma_split_by_len(content@, crate::text::nl());
        }
        let tree_hash = crate::text::copy_range(lines[0].as_slice(), 0, lines[0].len());
        proof {
            assert(tree_hash@ =~= ls[0]);
        }
        let n = lines.len();
        let mut parents: Vec<CommitNode> = Vec::new();
        let mut i: usize = 1;
        while i < n
            invariant
                1 <= i <= n,
                n == lines@.len(),
                ls == lines.deep_view(),
                ls.len() == n,
                subfuel == (fuel - 1) as nat,
                fuel >= 1,
                hash@.len() >= 2,
                object_readable(store@, hash@),
                ls == lines_of(object_content(store@, hash@)),
                tree_hash@ == ls[0],
                forall|k: int| 0 <= k < parents@.len() ==> (Seq::new(
                    parents@.len(),
                    |q: int|
                        if 0 <= q < parents@.len() {
                            commit_view(parents@[q])
                        } else {
                            null_commit()
                        },
                ))[k] == commit_view(parents@[k]),
                ({
                    let pv = Seq::new(
                        parents@.len(),
                        |q: int|
                            if 0 <= q < parents@.len() {
                                commit_view(parents@[q])
                            } else {
                                null_commit()
                            },
                    );
                    match parse_parents(store@, ls, i as int, subfuel) {
                        None => parse_parents(store@, ls, 1, subfuel) is None,
                        Some(rest) => parse_parents(store@, ls, 1, subfuel) == Some(pv + rest),
                    }
                }),
            decreases n - i,
        {
            let ghost pv_pre = Seq::new(
                parents@.len(),
                |q: int|
                    if 0 <= q < parents@.len() {
                        commit_view(parents@[q])
                    } else {
                        null_commit()
                    },
            );
            if lines[i].len() == 0 {
                proof {
                    assert(ls[i as int].len() == 0);
                    assert(parse_parents(store@, ls, i as int, subfuel) == Some(Seq::<
                        CommitV,
                    >::empty()));
                    assert(pv_pre + Seq::<CommitV>::empty() =~= pv_pre);
                }
                let node = CommitNode { hash, tree_hash, parents };
                proof {
                    assert(node@.parents =~= pv_pre);
                    assert(node@ =~~= resolve_commit(store@, node.hash@, fuel as nat));
                }
                return node;
            }
            let word = crate::text::copy_range(lines[i].as_slice(), 0, lines[i].len());
            proof {
                assert(word@ =~= ls[i as int]);
            }
            let parent = CommitNode::new_fuel(store, word, fuel - 1);
            parents.push(parent);
            proof {
                let pv_post = Seq::new(
                    parents@.len(),
                    |q: int|
                        if 0 <= q < parents@.len() {
                            commit_view(parents@[q])
                        } else {
                            null_commit()
                        },
                );
                assert(pv_post =~= pv_pre.push(commit_view(parents@[parents@.len() - 1])));
                assert(pv_post =~= pv_pre.push(resolve_commit(store@, ls[i as int], subfuel)));
                match parse_parents(store@, ls, i + 1, subfuel) {
                    None => {},
                    Some(rest) => {
                        assert(pv_pre + (seq![resolve_commit(store@, ls[i as int], subfuel)]
                            + rest) =~= pv_post + rest);
                    },
                }
            }
            i = i + 1;
        }
        proof {
            assert(parse_parents(store@, ls, n as int, subfuel) is None);
            assert(resolve_commit(store@, hash@, fuel as nat) == null_commit());
        }
        CommitNode::null_node()
    }

    /// The degraded node: empty hash, empty tree hash, no parents.
    fn null_node() -> (c: CommitNode)
        ensures
            c@ == null_commit(),
    {
        let c = CommitNode { hash: Vec::new(), tree_hash: Vec::new(), parents: Vec::new() };
        proof {
            assert(c@.hash =~= Seq::<u8>::empty());
            assert(c@.tree_hash =~= Seq::<u8>::empty());
            assert(c@.parents =~= Seq::<CommitV>::empty());
            assert(c@ =~~= null_commit());
        }
        c
    }

    /// A deep copy.
    pub fn duplicate(&self) -> (c: CommitNode)
        ensures
            c@ == self@,
        decreases *self,
    {
        let hash = crate::text::copy_range(self.hash.as_slice(), 0, self.hash.len());
        let tree_hash = crate::text::copy_range(self.tree_hash.as_slice(), 0, self.tree_hash.len());
        let n = self.parents.len();
        let mut parents: Vec<CommitNode> = Vec::new();
        let mut i: usize = 0;
        while i < n
            invariant
                0 <= i <= n,
                n == self.parents@.len(),
                self@.parents.len() == n,
                forall|k: int| 0 <= k < n ==> self@.parents[k] == commit_view(self.parents@[k]),
                parents@.len() == i,
                forall|k: int| 0 <= k < i ==> commit_view(#[trigger] parents@[k])
                    == self@.parents[k],
            decreases n - i,
        {
            let p = self.parents[i].duplicate();
            parents.push(p);
            i = i + 1;
        }
        let c = CommitNode { hash, tree_hash, parents };
        proof {
            assert(c@.hash =~= self@.hash);
            assert(c@.tree_hash =~= self@.tree_hash);
            assert(c@.parents =~= self@.parents);
            assert(c@ =~~= self@);
        }
        c
    }

    /// Whether the given hash is reachable among this commit's ancestors,
    /// searched depth-first and exhaustively.
    pub fn is_parent(&self, commit_hash: &[u8]) -> (r: bool)
        ensures
            r == is_ancestor(self@, commit_hash@),
        decreases *self,
    {
        let n = self.parents.len();
        let mut i: usize = 0;
        while i < n
            invariant
                0 <= i <= n,
                n == self.parents@.len(),
                self@.parents.len() == n,
                forall|k: int| 0 <= k < n ==> self@.parents[k] == commit_view(self.parents@[k]),
                forall|k: int|
                    0 <= k < i ==> !((#[trigger] self@.parents[k]).hash == commit_hash@
                        || is_ancestor(self@.parents[k], commit_hash@)),
            decreases n - i,
        {
            if crate::storage::bytes_eq(self.parents[i].hash.as_slice(), commit_hash) {
                proof {
                    assert((self@.parents[i as int]).hash == commit_hash@);
                }
                return true;
            }
            if self.parents[i].is_parent(commit_hash) {
                proof {
                    assert(is_ancestor(self@.parents[i as int], commit_hash@));
                    assert(is_ancestor(self@, commit_hash@));
                }
                return true;
            }
            i = i + 1;
        }
        false
    }

    /// The most recent common ancestor of this commit and `other`: this
    /// commit itself if `other` already contains it, else the first
    /// parent's answer, left to right.
    pub fn get_most_recent_parent_commit(&self, other: &CommitNode) -> (r: Option<CommitNode>)
        ensures
            match r {
                Some(c) => mrca(self@, other@) == Some(c@),
                None => mrca(self@, other@) is None,
            },
        decreases *self,
    {
        if other.is_parent(self.hash.as_slice()) {
            return Some(self.duplicate());
        }
        let n = self.parents.len();
        let mut i: usize = 0;
        proof {
            assert(self@.parents.skip(0) =~= self@.parents);
        }
        while i < n
            invariant
                0 <= i <= n,
                n == self.parents@.len(),
                self@.parents.len() == n,
                forall|k: int| 0 <= k < n ==> self@.parents[k] == commit_view(self.parents@[k]),
                !is_ancestor(other@, self@.hash),
                mrca(self@, other@) == mrca_list(self@.parents, other@),
                mrca_list(self@.parents, other@) == mrca_list(
                    self@.parents.skip(i as int),
                    other@,
                ),
            decreases n - i,
        {
            let ghost suffix = self@.parents.skip(i as int);
            proof {
                assert(suffix[0] == self@.parents[i as int]);
                assert(suffix.drop_first() =~= self@.parents.skip(i + 1));
            }
            match self.parents[i].get_most_recent_parent_commit(other) {
                Some(c) => {
                    return Some(c);
                },
                None => {},
            }
            i = i + 1;
        }
        proof {
            assert(self@.parents.skip(n as int) =~= Seq::<CommitV>::empty());
        }
        None
    }
}

/// The parent block, unfolded from the front.
proof fn lemma_parent_block_front(ps: Seq<Seq<u8>>)
    requires
        ps.len() > 0,
    ensures
        parent_block(ps) == ps[0] + seq![10u8] + parent_block(ps.drop_first()),
    decreases ps.len(),
{
    if ps.len() == 1 {
        assert(ps.drop_last() =~= Seq::<Seq<u8>>::empty());
        assert(ps.drop_first() =~= Seq::<Seq<u8>>::empty());
        assert(parent_block(Seq::<Seq<u8>>::empty()) == Seq::<u8>::empty());
        assert(parent_block(ps) =~= ps[0] + seq![10u8] + parent_block(ps.drop_first()));
    } else {
        lemma_parent_block_front(ps.drop_last());
        assert(ps.drop_last()[0] == ps[0]);
        assert(ps.drop_last().drop_first() =~= ps.drop_first().drop_last());
        assert(ps.drop_first().last() == ps.last());
        assert(parent_block(ps) =~= ps[0] + seq![10u8] + parent_block(ps.drop_first()));
    }
}

/// The lines of the parent block followed by the empty line and the
/// message: one line per parent, the empty line, then the message's.
proof fn lemma_parent_block_lines(ps: Seq<Seq<u8>>, msg: Seq<u8>)
    requires
        forall|i: int, j: int| 0 <= i < ps.len() && 0 <= j < ps[i].len() ==> ps[i][j] != 10u8,
    ensures
        lines_of(parent_block(ps) + seq![10u8] + msg) == ps + seq![Seq::<u8>::empty()] + lines_of(
            msg,
        ),
    decreases ps.len(),
{
    if ps.len() == 0 {
        assert(parent_block(ps) + seq![10u8] + msg =~= Seq::<u8>::empty() + seq![10u8] + msg);
        crate::text::lemma_split_prepend(Seq::<u8>::empty(), msg, 10u8);
        assert(lines_of(parent_block(ps) + seq![10u8] + msg) =~= ps + seq![Seq::<u8>::empty()]
            + lines_of(msg));
    } else {
        assert(forall|i: int, j: int|
            0 <= i < ps.drop_first().len() && 0 <= j < ps.drop_first()[i].len()
                ==> ps.drop_first()[i][j] != 10u8) by {
            assert(forall|i: int|
                0 <= i < ps.drop_first().len() ==> ps.drop_first()[i] == ps[i + 1]);
        }
        lemma_parent_block_lines(ps.drop_first(), msg);
        lemma_parent_block_front(ps);
        assert(parent_block(ps) + seq![10u8] + msg =~= ps[0] + seq![10u8] + (parent_block(
            ps.drop_first(),
        ) + seq![10u8] + msg));
        crate::text::lemma_split_prepend(
            ps[0],
            parent_block(ps.drop_first()) + seq![10u8] + msg,
            10u8,
        );
        assert(lines_of(parent_block(ps) + seq![10u8] + msg) =~= ps + seq![Seq::<u8>::empty()]
            + lines_of(msg));
    }
}

/// The parent walk only looks at the lines from its position on.
proof fn lemma_parse_shift(files: Map<Seq<u8>, Seq<u8>>, ls: Seq<Seq<u8>>, i: int, fuel: nat)
    requires
        0 <= i <= ls.len(),
    ensures
        parse_parents(files, ls, i, fuel) == parse_parents(files, ls.skip(i), 0, fuel),
    decreases ls.len() - i,
{
    if i < ls.len() {
        assert(ls.skip(i)[0] == ls[i]);
        if ls[i].len() == 0 {
        } else {
            lemma_parse_shift(files, ls, i + 1, fuel);
            lemma_parse_shift(files, ls.skip(i), 1, fuel);
            assert(ls.skip(i).skip(1) =~= ls.skip(i + 1));
        }
    } else {
        assert(ls.skip(i).len() == 0);
    }
}

/// Walking non-empty parent lines up to a stopper resolves each in turn.
proof fn lemma_parse_walk(
    files: Map<Seq<u8>, Seq<u8>>,
    ps: Seq<Seq<u8>>,
    rest: Seq<Seq<u8>>,
    fuel: nat,
)
    requires
        forall|i: int| 0 <= i < ps.len() ==> (#[trigger] ps[i]).len() > 0,
        rest.len() > 0,
        rest[0].len() == 0,
    ensures
        parse_parents(files, ps + rest, 0, fuel) == Some(
            Seq::new(ps.len(), |i: int| resolve_commit(files, ps[i], fuel)),
        ),
    decreases ps.len(),
{
    let ls = ps + rest;
    if ps.len() == 0 {
        assert(ls[0] == rest[0]);
        assert(parse_parents(files, ls, 0, fuel) == Some(Seq::<CommitV>::empty()));
        assert(Seq::new(0, |i: int| resolve_commit(files, ps[i], fuel)) =~= Seq::<
            CommitV,
        >::empty());
    } else {
        assert(ls[0] == ps[0]);
        assert(ls[0].len() > 0);
        assert(forall|i: int|
            0 <= i < ps.drop_first().len() ==> (#[trigger] ps.drop_first()[i]).len() > 0) by {
            assert(forall|i: int|
                0 <= i < ps.drop_first().len() ==> ps.drop_first()[i] == ps[i + 1]);
        }
        lemma_parse_walk(files, ps.drop_first(), rest, fuel);
        lemma_parse_shift(files, ls, 1, fuel);
        assert(ls.skip(1) =~= ps.drop_first() + rest);
        assert(seq![resolve_commit(files, ps[0], fuel)] + Seq::new(
            ps.drop_first().len(),
            |i: int| resolve_commit(files, ps.drop_first()[i], fuel),
        ) =~= Seq::new(ps.len(), |i: int| resolve_commit(files, ps[i], fuel)));
    }
}

/// The commit round trip: resolving a persisted commit yields its hash,
/// its tree hash, and its parents resolved in order, for any tree hash
/// and parent hashes free of newlines (as rendered digests are).
pub proof fn lemma_resolve_written_commit(
    f: Map<Seq<u8>, Seq<u8>>,
    ch: Seq<u8>,
    msg: Seq<u8>,
    parents: Seq<Seq<u8>>,
    th: Seq<u8>,
    fuel: nat,
)
    requires
        f.contains_key(object_path(ch)),
        inflate_of(f[object_path(ch)]) == Some(commit_content(msg, parents, th)),
        ch.len() >= 2,
        fuel >= 1,
        forall|j: int| 0 <= j < th.len() ==> th[j] != 10u8,
        forall|i: int| 0 <= i < parents.len() ==> (#[trigger] parents[i]).len() > 0,
        forall|i: int, j: int|
            0 <= i < parents.len() && 0 <= j < parents[i].len() ==> parents[i][j] != 10u8,
    ensures
        resolve_commit(f, ch, fuel) == (CommitV {
            hash: ch,
            tree_hash: th,
            parents: Seq::new(
                parents.len(),
                |i: int| resolve_commit(f, parents[i], (fuel - 1) as nat),
            ),
        }),
{
    let stored = th + seq![10u8] + (parent_block(parents) + seq![10u8] + msg);
    assert(commit_content(msg, parents, th) =~= commit_tag() + stored);
    assert(forall|j: int| 0 <= j < commit_tag().len() - 1 ==> commit_tag()[j] != 10u8);
    lemma_strip_tag(commit_tag(), stored);
    assert(object_readable(f, ch));
    assert(object_content(f, ch) == stored);
    crate::text::lemma_split_prepend(th, parent_block(parents) + seq![10u8] + msg, 10u8);
    lemma_parent_block_lines(parents, msg);
    let ls = lines_of(stored);
    assert(ls =~= seq![th] + (parents + (seq![Seq::<u8>::empty()] + lines_of(msg))));
    assert(ls[0] == th);
    lemma_parse_shift(f, ls, 1, (fuel - 1) as nat);
    assert(ls.skip(1) =~= parents + (seq![Seq::<u8>::empty()] + lines_of(msg)));
    assert((seq![Seq::<u8>::empty()] + lines_of(msg))[0].len() == 0);
    lemma_parse_walk(
        f,
        parents,
        seq![Seq::<u8>::empty()] + lines_of(msg),
        (fuel - 1) as nat,
    );
    assert(resolve_commit(f, ch, fuel) =~~= (CommitV {
        hash: ch,
        tree_hash: th,
        parents: Seq::new(
            parents.len(),
            |i: int| resolve_commit(f, parents[i], (fuel - 1) as nat),
        ),
    }));
}

} // verus!
