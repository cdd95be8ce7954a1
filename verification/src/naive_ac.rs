//! A dictionary of byte patterns compiled into an Aho-Corasick automaton.
//!
//! The patterns live in a trie whose nodes sit in one arena and name each
//! other by index. [`NaiveAcBuilder`] grows the trie; [`NaiveAcBuilder::build`]
//! adds the failure links and hands out an immutable [`NaiveAc`], which
//! rewrites texts as [`crate::policy::rewrite`] says. Failure links are
//! followed while a text is read: no full transition table is computed.

use crate::policy::{
    accepted_from, lemma_longest_end_unique, longest_end, render, rewrite, Span,
};
use std::collections::VecDeque;
use vstd::prelude::*;
use vstd::set_lib::{lemma_int_range, lemma_len_subset, set_int_range};
use vstd::slice::slice_subrange;
use vstd::string::StringSliceAdditionalSpecFns;
use vstd::utf8::encode_utf8;

verus! {

/// What can be entered as a payload: a value that can be read as bytes.
pub trait Payload {
    /// The bytes that replace an occurrence of the pattern.
    spec fn payload(&self) -> Seq<u8>;

    /// The bytes that replace an occurrence of the pattern.
    fn as_payload(&self) -> (bytes: &[u8])
        ensures
            bytes@ == self.payload(),
    ;
}

impl Payload for Vec<u8> {
    open spec fn payload(&self) -> Seq<u8> {
        self@
    }

    fn as_payload(&self) -> (bytes: &[u8]) {
        self.as_slice()
    }
}

impl<'a> Payload for &'a [u8] {
    open spec fn payload(&self) -> Seq<u8> {
        self@
    }

    fn as_payload(&self) -> (bytes: &[u8]) {
        *self
    }
}

impl<'a> Payload for &'a str {
    open spec fn payload(&self) -> Seq<u8> {
        self.spec_bytes()
    }

    fn as_payload(&self) -> (bytes: &[u8]) {
        self.as_bytes()
    }
}

impl Payload for String {
    open spec fn payload(&self) -> Seq<u8> {
        encode_utf8(self@)
    }

    fn as_payload(&self) -> (bytes: &[u8]) {
        self.as_str().as_bytes()
    }
}

/// One state of the automaton. The bytes on the way from the root to a node
/// are the node's path.
struct Node<T> {
    /// The payload of the pattern that is this node's path, if it is one.
    value: Option<T>,
    /// The child reached by each byte.
    next: Vec<Option<usize>>,
    /// The length of the path.
    len: usize,
    /// The node whose path is the longest proper suffix of this node's path
    /// that is a path at all. Meaningful once the automaton is built.
    fail: usize,
}

impl<T> Node<T> {
    /// A node without edges.
    fn new(value: Option<T>) -> (node: Node<T>)
        ensures
            node.value == value,
            node.next@ == Seq::new(256, |b: int| None::<usize>),
            node.len == 0,
            node.fail == 0,
    {
        let mut next: Vec<Option<usize>> = Vec::new();
        let mut b: usize = 0;
        while b < 256
            invariant
                b <= 256,
                next@ == Seq::new(b as nat, |b: int| None::<usize>),
            decreases 256 - b,
        {
            next.push(None);
            b += 1;
        }
        Node { value, next, len: 0, fail: 0 }
    }

    /// Whether the byte `edg` leads on from this node.
    fn has_edg(&self, edg: u8) -> (has: bool)
        requires
            self.next.len() == 256,
        ensures
            has == (self.next[edg as int] is Some),
    {
        self.next_node(edg).is_some()
    }

    /// The child that the byte `edg` leads to.
    fn next_node(&self, edg: u8) -> (child: Option<usize>)
        requires
            self.next.len() == 256,
        ensures
            child == self.next[edg as int],
    {
        self.next[edg as usize]
    }
}

/// A dictionary under construction: a trie of the patterns entered so far.
pub struct NaiveAcBuilder<T> {
    nodes: Vec<Node<T>>,
    root: usize,
    /// The path of each node.
    paths: Ghost<Seq<Seq<u8>>>,
    /// The node of each path.
    index: Ghost<Map<Seq<u8>, int>>,
}

/// A compiled dictionary. It cannot be changed any more.
pub struct NaiveAc<T> {
    inner: NaiveAcBuilder<T>,
}

impl<T: Payload> View for NaiveAcBuilder<T> {
    type V = Map<Seq<u8>, Seq<u8>>;

    /// The dictionary: the patterns entered, each with the payload entered
    /// last for it.
    closed spec fn view(&self) -> Map<Seq<u8>, Seq<u8>> {
        Map::new(
            |p: Seq<u8>| self.index@.contains_key(p) && self.nodes[self.index@[p]].value is Some,
            |p: Seq<u8>| (self.nodes[self.index@[p]].value->0).payload(),
        )
    }
}

impl<T: Payload> View for NaiveAc<T> {
    type V = Map<Seq<u8>, Seq<u8>>;

    /// The dictionary that was compiled.
    closed spec fn view(&self) -> Map<Seq<u8>, Seq<u8>> {
        self.inner@
    }
}

/// The path of node `m` is the span of `w` that ends at `end`, and that
/// span begins at or behind `lo`.
spec fn ends_at(paths: Seq<Seq<u8>>, m: int, w: Seq<u8>, lo: int, end: int) -> bool {
    &&& 0 <= m < paths.len()
    &&& 0 <= lo <= end - paths[m].len()
    &&& end <= w.len()
    &&& paths[m] == w.subrange(end - paths[m].len(), end)
}

/// Node `f` is the deepest node whose path ends at `end` in `w` and begins
/// at or behind `lo`.
spec fn deepest_at(paths: Seq<Seq<u8>>, f: int, w: Seq<u8>, lo: int, end: int) -> bool {
    &&& ends_at(paths, f, w, lo, end)
    &&& forall|m: int| #[trigger] ends_at(paths, m, w, lo, end) ==> paths[m].len() <= paths[f].len()
}

/// A suffix of a path that ends somewhere ends there too.
proof fn lemma_ends_at_trans(
    paths: Seq<Seq<u8>>,
    a: int,
    b: int,
    inner: int,
    w: Seq<u8>,
    lo: int,
    end: int,
)
    requires
        ends_at(paths, a, paths[b], inner, paths[b].len() as int),
        ends_at(paths, b, w, lo, end),
    ensures
        ends_at(paths, a, w, lo, end),
{
    assert(paths[a] =~= w.subrange(end - paths[a].len(), end));
}

/// Of two paths that end at the same place the shorter is a proper suffix
/// of the longer.
proof fn lemma_ends_at_nest(paths: Seq<Seq<u8>>, a: int, b: int, w: Seq<u8>, lo: int, end: int)
    requires
        ends_at(paths, a, w, lo, end),
        ends_at(paths, b, w, lo, end),
        paths[a].len() < paths[b].len(),
    ensures
        ends_at(paths, a, paths[b], 1, paths[b].len() as int),
{
    assert(paths[a] =~= paths[b].subrange(paths[b].len() - paths[a].len(), paths[b].len() as int));
}

/// The deepest node whose path ends at `end` in `w` is also the deepest whose
/// path ends there in any sequence that begins with `w`.
proof fn lemma_deepest_at_longer(
    paths: Seq<Seq<u8>>,
    f: int,
    w: Seq<u8>,
    longer: Seq<u8>,
    lo: int,
    end: int,
)
    requires
        deepest_at(paths, f, w, lo, end),
        w.len() <= longer.len(),
        w == longer.subrange(0, w.len() as int),
    ensures
        deepest_at(paths, f, longer, lo, end),
{
    assert(paths[f] =~= longer.subrange(end - paths[f].len(), end));
    assert forall|m: int| #[trigger] ends_at(paths, m, longer, lo, end) implies paths[m].len()
        <= paths[f].len() by {
        assert(paths[m] =~= w.subrange(end - paths[m].len(), end));
        assert(ends_at(paths, m, w, lo, end));
    }
}

/// The child that byte `b` leads to from node `m`, if there is one, has been
/// put in the queue.
spec fn edge_marked(edges: Seq<Seq<Option<usize>>>, pos: Map<int, int>, m: int, b: int) -> bool {
    edges[m][b] is Some ==> pos.contains_key(edges[m][b]->0 as int)
}

/// The `j`-th node that was put in the queue is a node, `pos` knows its
/// place, and unless it is the root it was put there when its parent was
/// taken out.
spec fn seen_ok(
    paths: Seq<Seq<u8>>,
    index: Map<Seq<u8>, int>,
    seen: Seq<usize>,
    pos: Map<int, int>,
    head: int,
    done: int,
    j: int,
) -> bool {
    let m = seen[j] as int;
    &&& 0 <= m < paths.len()
    &&& pos.contains_key(m)
    &&& pos[m] == j
    &&& j > 0 ==> {
        let q = index[paths[m].drop_last()];
        &&& paths[m].len() > 0
        &&& pos.contains_key(q)
        &&& pos[q] < head || (pos[q] == head && paths[m].last() < done)
    }
}

/// The state of the breadth-first walk. `seen` holds the nodes put in the
/// queue so far, in that order, and `pos` the place of each in it. The
/// first `head` of them were taken out and all their children put in; of
/// the next one the children by the bytes below `done` were. Depth never
/// falls along `seen`, and no node in it is more than one level below the
/// one at `head`.
spec fn queue_ok(
    paths: Seq<Seq<u8>>,
    index: Map<Seq<u8>, int>,
    edges: Seq<Seq<Option<usize>>>,
    seen: Seq<usize>,
    pos: Map<int, int>,
    head: int,
    done: int,
) -> bool {
    &&& 0 <= head <= seen.len()
    &&& 0 <= done <= 256
    &&& head == seen.len() ==> done == 0
    &&& seen.len() >= 1
    &&& seen[0] == 0
    &&& pos.dom().finite()
    &&& pos.dom().len() == seen.len()
    &&& forall|j: int|
        0 <= j < seen.len() ==> #[trigger] seen_ok(paths, index, seen, pos, head, done, j)
    &&& forall|m: int| #[trigger]
        pos.contains_key(m) ==> 0 <= pos[m] < seen.len() && seen[pos[m]] == m
    &&& forall|i: int, j: int|
        0 <= i <= j < seen.len() ==> paths[#[trigger] seen[i] as int].len()
            <= paths[#[trigger] seen[j] as int].len()
    &&& head < seen.len() ==> forall|j: int|
        0 <= j < seen.len() ==> paths[#[trigger] seen[j] as int].len()
            <= paths[seen[head] as int].len() + 1
    &&& forall|i: int, b: int|
        0 <= i < seen.len() && 0 <= b < 256 && (i < head || (i == head && b < done))
            ==> #[trigger] edge_marked(edges, pos, seen[i] as int, b)
}

/// Appends `bytes` to `out`.
fn extend(out: &mut Vec<u8>, bytes: &[u8])
    ensures
        final(out)@ == old(out)@ + bytes@,
{
    out.extend_from_slice(bytes);
    assert(out@ =~= old(out)@ + bytes@);
}

impl<T: Payload> NaiveAcBuilder<T> {
    /// What holds of node `n` alone: its table has a slot for every byte,
    /// it knows the length of its path, the index leads from its path back
    /// to it, and unless it is the root its parent has an edge to it.
    spec fn node_wf(&self, n: int) -> bool {
        let path = self.paths@[n];
        &&& self.nodes[n].next.len() == 256
        &&& self.nodes[n].len == path.len()
        &&& self.index@.contains_key(path)
        &&& self.index@[path] == n
        &&& n != 0 ==> {
            &&& path.len() > 0
            &&& self.index@.contains_key(path.drop_last())
            &&& self.nodes[self.index@[path.drop_last()]].next[path.last() as int] == Some(
                n as usize,
            )
        }
    }

    /// An edge leads to a node whose path is one byte longer.
    spec fn edge_wf(&self, n: int, b: int) -> bool {
        match self.nodes[n].next[b] {
            Some(c) => {
                &&& c < self.nodes.len()
                &&& self.paths@[c as int] == self.paths@[n].push(b as u8)
            },
            None => true,
        }
    }

    /// The arena is a trie: node 0 is the root, with the empty path, and
    /// every other node hangs below its parent by the last byte of its path.
    spec fn trie(&self) -> bool {
        &&& self.root == 0
        &&& self.nodes.len() > 0
        &&& self.paths@.len() == self.nodes.len()
        &&& self.paths@[0] == Seq::<u8>::empty()
        &&& self.nodes[0].fail == 0
        &&& forall|n: int| 0 <= n < self.nodes.len() ==> #[trigger] self.node_wf(n)
        &&& forall|n: int, b: int|
            0 <= n < self.nodes.len() && 0 <= b < 256 ==> #[trigger] self.edge_wf(n, b)
        &&& forall|p: Seq<u8>| #[trigger]
            self.index@.contains_key(p) ==> 0 <= self.index@[p] < self.nodes.len()
                && self.paths@[self.index@[p]] == p
    }

    /// The path of node `n` is the beginning of a pattern of the dictionary.
    spec fn grounded(&self, n: int) -> bool {
        exists|key: Seq<u8>| #[trigger] self@.contains_key(key) && self.paths@[n].is_prefix_of(key)
    }

    /// The builder holds a trie of the patterns of its dictionary and no
    /// node besides the root that none of them needs.
    pub closed spec fn wf(&self) -> bool {
        &&& self.trie()
        &&& forall|n: int| 0 < n < self.nodes.len() ==> #[trigger] self.grounded(n)
    }

    /// An empty dictionary.
    pub fn new() -> (builder: Self)
        ensures
            builder.wf(),
            builder@ == Map::<Seq<u8>, Seq<u8>>::empty(),
    {
        let mut nodes: Vec<Node<T>> = Vec::new();
        nodes.push(Node::new(None));
        let root = nodes.len() - 1;
        nodes[root].fail = root;
        let ghost paths = Seq::<Seq<u8>>::empty().push(Seq::empty());
        let ghost index = Map::<Seq<u8>, int>::empty().insert(Seq::empty(), 0);
        let builder = NaiveAcBuilder { nodes, root, paths: Ghost(paths), index: Ghost(index) };
        proof {
            assert(builder.node_wf(0));
            assert(builder@ =~= Map::<Seq<u8>, Seq<u8>>::empty());
        }
        builder
    }

    /// Enters `key` with the payload `value`. A payload entered before for
    /// the same key is forgotten. The empty key may be entered; it occurs
    /// in no text.
    pub fn insert(&mut self, key: &[u8], value: T)
        requires
            old(self).wf(),
        ensures
            final(self).wf(),
            final(self)@ == old(self)@.insert(key@, value.payload()),
    {
        let mut cur = self.root;
        let mut i: usize = 0;
        while i < key.len()
            invariant
                self.trie(),
                i <= key.len(),
                cur < self.nodes.len(),
                self.paths@[cur as int] == key@.subrange(0, i as int),
                self@ == old(self)@,
                forall|n: int|
                    0 < n < self.nodes.len() ==> self.paths@[n].is_prefix_of(key@)
                        || #[trigger] self.grounded(n),
            decreases key.len() - i,
        {
            let edg = key[i];
            proof {
                assert(self.node_wf(cur as int));
                assert(self.edge_wf(cur as int, edg as int));
                assert(key@.subrange(0, i as int).push(edg) =~= key@.subrange(0, i + 1));
            }
            cur = if !self.nodes[cur].has_edg(edg) {
                let ghost pre = *self;
                let n = self.alloc_node(None);
                self.nodes[cur].next[edg as usize] = Some(n);
                self.nodes[n].len = self.nodes[cur].len + 1;
                proof {
                    let path = pre.paths@[cur as int].push(edg);
                    self.paths@ = pre.paths@.push(path);
                    self.index@ = pre.index@.insert(path, n as int);
                    Self::lemma_extends(pre, *self, cur as int, edg);
                    assert(path =~= key@.subrange(0, i + 1));
                    assert forall|m: int| 0 < m < self.nodes.len() implies self.paths@[m]
                        .is_prefix_of(key@) || #[trigger] self.grounded(m) by {
                        if m < n {
                            assert(pre.paths@[m].is_prefix_of(key@) || pre.grounded(m));
                        }
                    }
                }
                n
            } else {
                self.nodes[cur].next[edg as usize].unwrap()
            };
            i += 1;
        }
        let ghost pre = *self;
        self.nodes[cur].value = Some(value);
        proof {
            assert(key@.subrange(0, key@.len() as int) =~= key@);
            assert forall|m: int| 0 <= m < self.nodes.len() implies #[trigger] self.node_wf(m) by {
                assert(pre.node_wf(m));
                if m != 0 {
                    assert(pre.node_wf(pre.index@[pre.paths@[m].drop_last()]));
                }
            }
            assert forall|m: int, x: int|
                0 <= m < self.nodes.len() && 0 <= x < 256 implies #[trigger] self.edge_wf(m, x) by {
                assert(pre.edge_wf(m, x));
            }
            assert(pre.node_wf(cur as int));
            assert(self@ =~= pre@.insert(key@, value.payload()));
            assert forall|m: int| 0 < m < self.nodes.len() implies #[trigger] self.grounded(m) by {
                if pre.paths@[m].is_prefix_of(key@) {
                    assert(self@.contains_key(key@));
                } else {
                    assert(pre.grounded(m));
                    let other = choose|other: Seq<u8>| #[trigger]
                        pre@.contains_key(other) && pre.paths@[m].is_prefix_of(other);
                    assert(self@.contains_key(other));
                }
            }
        }
    }

    /// Puts a new node without edges at the end of the arena and returns
    /// its index.
    fn alloc_node(&mut self, value: Option<T>) -> (n: usize)
        ensures
            n == old(self).nodes.len(),
            final(self).nodes@ == old(self).nodes@.push(final(self).nodes[n as int]),
            final(self).nodes[n as int].value == value,
            final(self).nodes[n as int].next@ == Seq::new(256, |b: int| None::<usize>),
            final(self).nodes[n as int].len == 0,
            final(self).root == old(self).root,
            final(self).paths == old(self).paths,
            final(self).index == old(self).index,
    {
        self.nodes.push(Node::new(value));
        self.nodes.len() - 1
    }

    /// `post` is `pre` with a new leaf below `cur`, reached by byte `b`.
    spec fn extends(pre: Self, post: Self, cur: int, b: u8) -> bool {
        let n = pre.nodes.len() as int;
        let path = pre.paths@[cur].push(b);
        &&& post.root == pre.root
        &&& post.nodes.len() == n + 1
        &&& forall|m: int| 0 <= m < n && m != cur ==> post.nodes[m] == pre.nodes[m]
        &&& post.nodes[cur].next@ == pre.nodes[cur].next@.update(b as int, Some(n as usize))
        &&& post.nodes[cur].value == pre.nodes[cur].value
        &&& post.nodes[cur].len == pre.nodes[cur].len
        &&& post.nodes[cur].fail == pre.nodes[cur].fail
        &&& post.nodes[n].next@ == Seq::new(256, |b: int| None::<usize>)
        &&& post.nodes[n].value is None
        &&& post.nodes[n].len == pre.nodes[cur].len + 1
        &&& post.paths@ == pre.paths@.push(path)
        &&& post.index@ == pre.index@.insert(path, n)
    }

    /// A new leaf keeps the trie a trie and the dictionary what it was.
    proof fn lemma_extends(pre: Self, post: Self, cur: int, b: u8)
        requires
            pre.trie(),
            0 <= cur < pre.nodes.len(),
            pre.nodes[cur].next[b as int] is None,
            Self::extends(pre, post, cur, b),
        ensures
            post.trie(),
            post@ == pre@,
    {
        let n = pre.nodes.len() as int;
        let path = pre.paths@[cur].push(b);
        assert(pre.node_wf(cur));
        assert(path.drop_last() =~= pre.paths@[cur]);
        assert(!pre.index@.contains_key(path)) by {
            if pre.index@.contains_key(path) {
                let m = pre.index@[path];
                assert(pre.node_wf(m));
            }
        }
        assert forall|m: int| 0 <= m < post.nodes.len() implies #[trigger] post.node_wf(m) by {
            if m < n {
                assert(pre.node_wf(m));
                if m != 0 {
                    let q = pre.index@[pre.paths@[m].drop_last()];
                    assert(pre.node_wf(q));
                }
            }
        }
        assert forall|m: int, x: int|
            0 <= m < post.nodes.len() && 0 <= x < 256 implies #[trigger] post.edge_wf(m, x) by {
            if m < n {
                assert(pre.edge_wf(m, x));
            }
        }
        assert(post@ =~= pre@);
    }

    /// The failure link of node `n` is right: it leads to the deepest node
    /// whose path is a proper suffix of the path of `n`; the root's leads to
    /// the root.
    spec fn link_ok(&self, n: int) -> bool {
        if n == 0 {
            self.nodes[0].fail == 0
        } else {
            deepest_at(
                self.paths@,
                self.nodes[n].fail as int,
                self.paths@[n],
                1,
                self.paths@[n].len() as int,
            )
        }
    }

    /// The failure links of all nodes of depth `depth` or less are right.
    spec fn linked_upto(&self, depth: int) -> bool {
        forall|n: int|
            0 <= n < self.nodes.len() && self.paths@[n].len() <= depth ==> #[trigger] self.link_ok(
                n,
            )
    }

    /// All failure links are right.
    spec fn linked(&self) -> bool {
        forall|n: int| 0 <= n < self.nodes.len() ==> #[trigger] self.link_ok(n)
    }

    /// Two nodes whose paths end at the same place and are equally long are
    /// one node.
    proof fn lemma_ends_at_same(&self, a: int, b: int, w: Seq<u8>, lo: int, end: int)
        requires
            self.trie(),
            ends_at(self.paths@, a, w, lo, end),
            ends_at(self.paths@, b, w, lo, end),
            self.paths@[a].len() == self.paths@[b].len(),
        ensures
            a == b,
    {
        assert(self.node_wf(a));
        assert(self.node_wf(b));
    }

    /// Where the path of a node other than the root ends behind a byte, the
    /// path of its parent ends before that byte, and the parent has an edge
    /// for it.
    proof fn lemma_ends_at_parent(&self, m: int, w: Seq<u8>, lo: int, end: int) -> (q: int)
        requires
            self.trie(),
            ends_at(self.paths@, m, w, lo, end + 1),
            m != 0,
        ensures
            ends_at(self.paths@, q, w, lo, end),
            0 <= end < w.len(),
            self.nodes[q].next[w[end] as int] == Some(m as usize),
            self.paths@[q].len() + 1 == self.paths@[m].len(),
    {
        assert(self.node_wf(m));
        let path = self.paths@[m];
        let q = self.index@[path.drop_last()];
        assert(path.drop_last() =~= w.subrange(end + 1 - path.len(), end));
        assert(path.last() == w[end]);
        q
    }

    /// Where a path ends before a byte and its node has an edge for that
    /// byte, the path of the child ends behind the byte.
    proof fn lemma_ends_at_child(&self, q: int, w: Seq<u8>, lo: int, end: int)
        requires
            self.trie(),
            ends_at(self.paths@, q, w, lo, end),
            end < w.len(),
            self.nodes[q].next[w[end] as int] is Some,
        ensures
            ends_at(self.paths@, self.nodes[q].next[w[end] as int]->0 as int, w, lo, end + 1),
            self.paths@[self.nodes[q].next[w[end] as int]->0 as int].len() == self.paths@[q].len()
                + 1,
    {
        assert(self.edge_wf(q, w[end] as int));
        let c = self.nodes[q].next[w[end] as int]->0 as int;
        assert(self.paths@[c] =~= w.subrange(end + 1 - self.paths@[c].len(), end + 1));
    }

    /// The state after one more byte: from the deepest node whose path ends
    /// before the byte `edg` to the deepest node whose path ends behind it.
    /// Failure links are followed until a node has an edge for the byte or
    /// the root is reached.
    fn next_state(
        &self,
        from: usize,
        edg: u8,
        Ghost(w): Ghost<Seq<u8>>,
        Ghost(lo): Ghost<int>,
        Ghost(end): Ghost<int>,
    ) -> (to: usize)
        requires
            self.trie(),
            deepest_at(self.paths@, from as int, w, lo, end),
            self.linked_upto(self.paths@[from as int].len() as int),
            end < w.len(),
            w[end] == edg,
        ensures
            deepest_at(self.paths@, to as int, w, lo, end + 1),
    {
        let mut cur = from;
        proof {
            assert(self.node_wf(cur as int));
            assert forall|m: int| #[trigger]
                ends_at(self.paths@, m, w, lo, end) implies self.paths@[m].len()
                <= self.paths@[cur as int].len() by {}
        }
        while !self.nodes[cur].has_edg(edg) && cur != self.root
            invariant
                self.trie(),
                self.linked_upto(self.paths@[from as int].len() as int),
                0 <= end < w.len(),
                w[end] == edg,
                ends_at(self.paths@, cur as int, w, lo, end),
                self.paths@[cur as int].len() <= self.paths@[from as int].len(),
                self.nodes[cur as int].next.len() == 256,
                forall|m: int| #[trigger]
                    ends_at(self.paths@, m, w, lo, end) && self.nodes[m].next[edg as int] is Some
                        ==> self.paths@[m].len() <= self.paths@[cur as int].len(),
            decreases self.paths@[cur as int].len(),
        {
            let fail = self.nodes[cur].fail;
            proof {
                let paths = self.paths@;
                let c = cur as int;
                assert(self.link_ok(c));
                lemma_ends_at_trans(paths, fail as int, c, 1, w, lo, end);
                assert forall|m: int| #[trigger]
                    ends_at(paths, m, w, lo, end) && self.nodes[m].next[edg as int]
                        is Some implies paths[m].len() <= paths[fail as int].len() by {
                    if paths[m].len() == paths[c].len() {
                        self.lemma_ends_at_same(m, c, w, lo, end);
                    } else {
                        lemma_ends_at_nest(paths, m, c, w, lo, end);
                    }
                }
                assert(self.node_wf(fail as int));
            }
            cur = fail;
        }
        let to = match self.nodes[cur].next_node(edg) {
            Some(n) => n,
            None => self.root,
        };
        proof {
            let paths = self.paths@;
            let c = cur as int;
            if self.nodes[c].next[edg as int] is Some {
                self.lemma_ends_at_child(c, w, lo, end);
            } else {
                assert(paths[0] =~= w.subrange(end + 1, end + 1));
            }
            let deepest = paths[to as int].len();
            assert forall|m: int| #[trigger]
                ends_at(paths, m, w, lo, end + 1) implies paths[m].len() <= deepest by {
                if m != 0 {
                    let q = self.lemma_ends_at_parent(m, w, lo, end);
                    if self.nodes[c].next[edg as int] is None {
                        self.lemma_ends_at_same(q, c, w, lo, end);
                    }
                }
            }
        }
        to
    }

    /// The edges of every node.
    spec fn edges(&self) -> Seq<Seq<Option<usize>>> {
        Seq::new(self.nodes.len() as nat, |m: int| self.nodes[m].next@)
    }

    /// `post` is `pre` with another failure link in node `n`.
    spec fn relinks(pre: Self, post: Self, n: int) -> bool {
        &&& post.root == pre.root
        &&& post.paths == pre.paths
        &&& post.index == pre.index
        &&& post.nodes.len() == pre.nodes.len()
        &&& forall|m: int| 0 <= m < pre.nodes.len() && m != n ==> post.nodes[m] == pre.nodes[m]
        &&& post.nodes[n].next == pre.nodes[n].next
        &&& post.nodes[n].value == pre.nodes[n].value
        &&& post.nodes[n].len == pre.nodes[n].len
    }

    /// Another failure link changes neither the trie nor the dictionary nor
    /// what holds of the other links.
    proof fn lemma_relinks(pre: Self, post: Self, n: int)
        requires
            pre.trie(),
            0 < n < pre.nodes.len(),
            Self::relinks(pre, post, n),
        ensures
            post.trie(),
            post@ == pre@,
            post.edges() == pre.edges(),
            forall|m: int|
                0 <= m < pre.nodes.len() && m != n && pre.link_ok(m) ==> #[trigger] post.link_ok(m),
    {
        assert forall|m: int| 0 <= m < post.nodes.len() implies #[trigger] post.node_wf(m) by {
            assert(pre.node_wf(m));
            if m != 0 {
                assert(pre.node_wf(pre.index@[pre.paths@[m].drop_last()]));
            }
        }
        assert forall|m: int, x: int|
            0 <= m < post.nodes.len() && 0 <= x < 256 implies #[trigger] post.edge_wf(m, x) by {
            assert(pre.edge_wf(m, x));
        }
        assert(post@ =~= pre@);
        assert(post.edges() =~= pre.edges());
    }

    /// While the queue is worked off, every node above the level of the
    /// node at its head has been taken out of it; once it is empty, every
    /// node has.
    proof fn lemma_shallow_marked(
        &self,
        seen: Seq<usize>,
        pos: Map<int, int>,
        head: int,
        done: int,
        m: int,
    )
        requires
            self.trie(),
            queue_ok(self.paths@, self.index@, self.edges(), seen, pos, head, done),
            0 <= m < self.nodes.len(),
            head == seen.len() || self.paths@[m].len() < self.paths@[seen[head] as int].len(),
        ensures
            pos.contains_key(m),
            pos[m] < head,
        decreases self.paths@[m].len(),
    {
        let paths = self.paths@;
        if m != 0 {
            assert(self.node_wf(m));
            let q = self.index@[paths[m].drop_last()];
            let b = paths[m].last() as int;
            self.lemma_shallow_marked(seen, pos, head, done, q);
            assert(edge_marked(self.edges(), pos, seen[pos[q]] as int, b));
        } else {
            assert(seen_ok(paths, self.index@, seen, pos, head, done, 0));
        }
        let j = pos[m];
        if head < seen.len() && j >= head {
            assert(paths[seen[head] as int].len() <= paths[seen[j] as int].len());
        }
    }

    /// Putting the child `n`, reached by the byte `done` from the node at
    /// the head, at the end of the queue.
    proof fn lemma_enqueue(
        &self,
        seen: Seq<usize>,
        pos: Map<int, int>,
        head: int,
        done: int,
        n: usize,
    )
        requires
            self.trie(),
            queue_ok(self.paths@, self.index@, self.edges(), seen, pos, head, done),
            head < seen.len(),
            done < 256,
            self.nodes[seen[head] as int].next[done] == Some(n),
        ensures
            !pos.contains_key(n as int),
            n != 0,
            seen.len() < self.nodes.len(),
            queue_ok(
                self.paths@,
                self.index@,
                self.edges(),
                seen.push(n),
                pos.insert(n as int, seen.len() as int),
                head,
                done + 1,
            ),
    {
        let paths = self.paths@;
        let index = self.index@;
        let edges = self.edges();
        let cur = seen[head] as int;
        let seen2 = seen.push(n);
        let pos2 = pos.insert(n as int, seen.len() as int);
        assert(seen_ok(paths, index, seen, pos, head, done, head));
        assert(self.edge_wf(cur, done));
        assert(self.node_wf(cur));
        assert(self.node_wf(n as int));
        assert(paths[n as int].drop_last() =~= paths[cur]);
        assert(paths[n as int].last() == done);
        if pos.contains_key(n as int) {
            assert(seen_ok(paths, index, seen, pos, head, done, pos[n as int]));
        }
        assert(pos2.dom() =~= pos.dom().insert(n as int));
        assert forall|m: int| pos2.dom().contains(m) implies set_int_range(
            0,
            self.nodes.len() as int,
        ).contains(m) by {
            if m != n {
                assert(pos.contains_key(m));
                assert(seen_ok(paths, index, seen, pos, head, done, pos[m]));
            }
        }
        lemma_int_range(0, self.nodes.len() as int);
        lemma_len_subset(pos2.dom(), set_int_range(0, self.nodes.len() as int));
        assert forall|j: int| 0 <= j < seen2.len() implies #[trigger] seen_ok(
            paths,
            index,
            seen2,
            pos2,
            head,
            done + 1,
            j,
        ) by {
            if j < seen.len() {
                assert(seen_ok(paths, index, seen, pos, head, done, j));
            }
        }
        assert forall|i: int, j: int| 0 <= i <= j < seen2.len() implies paths[#[trigger] seen2[i]
            as int].len() <= paths[#[trigger] seen2[j] as int].len() by {
            if j == seen.len() && i < j {
                assert(paths[seen[i] as int].len() <= paths[seen[head] as int].len() + 1);
            }
        }
        assert forall|j: int| 0 <= j < seen2.len() implies paths[#[trigger] seen2[j] as int].len()
            <= paths[seen2[head] as int].len() + 1 by {
            if j < seen.len() {
                assert(paths[seen[j] as int].len() <= paths[seen[head] as int].len() + 1);
            }
        }
        assert forall|i: int, b: int|
            0 <= i < seen2.len() && 0 <= b < 256 && (i < head || (i == head && b < done + 1))
            implies #[trigger] edge_marked(edges, pos2, seen2[i] as int, b) by {
            if i < head || b < done {
                assert(edge_marked(edges, pos, seen[i] as int, b));
            }
        }
    }

    /// Passing over a byte for which the node at the head has no edge.
    proof fn lemma_no_edge(&self, seen: Seq<usize>, pos: Map<int, int>, head: int, done: int)
        requires
            self.trie(),
            queue_ok(self.paths@, self.index@, self.edges(), seen, pos, head, done),
            head < seen.len(),
            done < 256,
            self.nodes[seen[head] as int].next[done] is None,
        ensures
            queue_ok(self.paths@, self.index@, self.edges(), seen, pos, head, done + 1),
    {
        let paths = self.paths@;
        let index = self.index@;
        let edges = self.edges();
        assert(seen_ok(paths, index, seen, pos, head, done, head));
        assert forall|j: int| 0 <= j < seen.len() implies #[trigger] seen_ok(
            paths,
            index,
            seen,
            pos,
            head,
            done + 1,
            j,
        ) by {
            assert(seen_ok(paths, index, seen, pos, head, done, j));
        }
        assert forall|i: int, b: int|
            0 <= i < seen.len() && 0 <= b < 256 && (i < head || (i == head && b < done + 1))
            implies #[trigger] edge_marked(edges, pos, seen[i] as int, b) by {
            if i < head || b < done {
                assert(edge_marked(edges, pos, seen[i] as int, b));
            }
        }
    }

    /// Going on to the next node in the queue.
    proof fn lemma_advance(&self, seen: Seq<usize>, pos: Map<int, int>, head: int)
        requires
            self.trie(),
            queue_ok(self.paths@, self.index@, self.edges(), seen, pos, head, 256),
            head < seen.len(),
        ensures
            queue_ok(self.paths@, self.index@, self.edges(), seen, pos, head + 1, 0),
    {
        let paths = self.paths@;
        let index = self.index@;
        let edges = self.edges();
        assert forall|j: int| 0 <= j < seen.len() implies #[trigger] seen_ok(
            paths,
            index,
            seen,
            pos,
            head + 1,
            0,
            j,
        ) by {
            assert(seen_ok(paths, index, seen, pos, head, 256, j));
        }
        assert forall|i: int, b: int|
            0 <= i < seen.len() && 0 <= b < 256 && i < head + 1 implies #[trigger] edge_marked(
            edges,
            pos,
            seen[i] as int,
            b,
        ) by {
            assert(edge_marked(edges, pos, seen[i] as int, b));
        }
        if head + 1 < seen.len() {
            assert forall|j: int| 0 <= j < seen.len() implies paths[#[trigger] seen[j] as int].len()
                <= paths[seen[head + 1] as int].len() + 1 by {
                assert(paths[seen[j] as int].len() <= paths[seen[head] as int].len() + 1);
                assert(paths[seen[head] as int].len() <= paths[seen[head + 1] as int].len());
            }
        }
    }

    /// Compiles the trie into the automaton: gives every node its failure
    /// link, level by level from the root down, since the link of a node is
    /// found along the links of the levels above it.
    fn build_imp(&mut self)
        requires
            old(self).trie(),
        ensures
            final(self).trie(),
            final(self).linked(),
            final(self)@ == old(self)@,
            final(self).paths == old(self).paths,
            final(self).nodes.len() == old(self).nodes.len(),
    {
        let ghost paths = self.paths@;
        let ghost index = self.index@;
        let ghost edges = self.edges();
        let ghost mut seen: Seq<usize> = Seq::empty().push(0usize);
        let ghost mut pos: Map<int, int> = Map::empty().insert(0int, 0int);
        let ghost mut head: int = 0;
        let mut qu: VecDeque<usize> = VecDeque::new();
        qu.push_back(self.root);
        proof {
            assert(self.node_wf(0));
            assert(self.link_ok(0));
            assert(pos.dom() =~= Set::<int>::empty().insert(0int));
            assert(seen_ok(paths, index, seen, pos, head, 0, 0));
            assert(qu@ =~= seen.subrange(head, seen.len() as int));
        }
        while qu.len() > 0
            invariant
                self.trie(),
                self.paths@ == paths,
                self.index@ == index,
                self.edges() == edges,
                self@ == old(self)@,
                queue_ok(paths, index, edges, seen, pos, head, 0),
                qu@ == seen.subrange(head, seen.len() as int),
                seen.len() <= self.nodes.len(),
                forall|m: int| #[trigger] pos.contains_key(m) ==> self.link_ok(m),
            decreases self.nodes.len() - head,
        {
            let cur = qu.pop_front().unwrap();
            let mut edg: usize = 0;
            proof {
                assert(cur == seen[head]);
                assert(seen_ok(paths, index, seen, pos, head, 0, head));
                assert(self.node_wf(cur as int));
                assert(qu@ =~= seen.subrange(head + 1, seen.len() as int));
            }
            while edg < 256
                invariant
                    self.trie(),
                    self.paths@ == paths,
                    self.index@ == index,
                    self.edges() == edges,
                    self@ == old(self)@,
                    edg <= 256,
                    head < seen.len(),
                    cur == seen[head],
                    cur < self.nodes.len(),
                    queue_ok(paths, index, edges, seen, pos, head, edg as int),
                    qu@ == seen.subrange(head + 1, seen.len() as int),
                    seen.len() <= self.nodes.len(),
                    forall|m: int| #[trigger] pos.contains_key(m) ==> self.link_ok(m),
                decreases 256 - edg,
            {
                proof {
                    assert(self.node_wf(cur as int));
                    assert(self.edge_wf(cur as int, edg as int));
                }
                if let Some(n) = self.nodes[cur].next_node(edg as u8) {
                    let ghost pre = *self;
                    proof {
                        self.lemma_enqueue(seen, pos, head, edg as int, n);
                        assert(self.node_wf(n as int));
                        assert(seen_ok(paths, index, seen, pos, head, edg as int, head));
                        assert(pos.contains_key(cur as int));
                        assert(self.link_ok(cur as int));
                    }
                    if cur == self.root {
                        self.nodes[n].fail = cur;
                        proof {
                            assert(paths[0] =~= paths[n as int].subrange(1, 1));
                        }
                    } else {
                        let fail = self.nodes[cur].fail;
                        proof {
                            let depth = paths[cur as int].len() as int;
                            assert(paths[cur as int] =~= paths[n as int].subrange(0, depth));
                            lemma_deepest_at_longer(
                                paths,
                                fail as int,
                                paths[cur as int],
                                paths[n as int],
                                1,
                                depth,
                            );
                            assert forall|m: int|
                                0 <= m < self.nodes.len() && paths[m].len()
                                    <= paths[fail as int].len() implies #[trigger] self.link_ok(
                                m,
                            ) by {
                                self.lemma_shallow_marked(seen, pos, head, edg as int, m);
                            }
                        }
                        let to = self.next_state(
                            fail,
                            edg as u8,
                            Ghost(paths[n as int]),
                            Ghost(1),
                            Ghost(paths[cur as int].len() as int),
                        );
                        self.nodes[n].fail = to;
                    }
                    qu.push_back(n);
                    proof {
                        Self::lemma_relinks(pre, *self, n as int);
                        assert(self.link_ok(n as int));
                        assert forall|m: int| #[trigger]
                            pos.contains_key(m) implies self.link_ok(m) by {
                            assert(seen_ok(paths, index, seen, pos, head, edg as int, pos[m]));
                            assert(pre.link_ok(m));
                        }
                        pos = pos.insert(n as int, seen.len() as int);
                        seen = seen.push(n);
                        assert(qu@ =~= seen.subrange(head + 1, seen.len() as int));
                    }
                } else {
                    proof {
                        self.lemma_no_edge(seen, pos, head, edg as int);
                    }
                }
                edg += 1;
            }
            proof {
                self.lemma_advance(seen, pos, head);
                head = head + 1;
            }
        }
        proof {
            assert(head == seen.len());
            assert forall|m: int| 0 <= m < self.nodes.len() implies #[trigger] self.link_ok(m) by {
                self.lemma_shallow_marked(seen, pos, head, 0, m);
            }
        }
    }

    /// Compiles the dictionary. The builder is used up.
    pub fn build(self) -> (ac: NaiveAc<T>)
        requires
            self.wf(),
        ensures
            ac.wf(),
            ac@ == self@,
    {
        let mut inner = self;
        inner.build_imp();
        proof {
            assert forall|n: int| 0 < n < inner.nodes.len() implies #[trigger] inner.grounded(
                n,
            ) by {
                assert(self.grounded(n));
            }
        }
        NaiveAc { inner }
    }

    /// `best` names the longest pattern that starts at `start` and ends at
    /// or before `bound`: the node whose path it is, or nothing where no
    /// pattern starts at `start` and ends by then.
    spec fn best_ok(&self, text: Seq<u8>, start: int, bound: int, best: Option<usize>) -> bool {
        match best {
            Some(m) => {
                let end = start + self.paths@[m as int].len();
                &&& m < self.nodes.len()
                &&& self.nodes[m as int].value is Some
                &&& 0 <= start < end <= bound
                &&& self.paths@[m as int] == text.subrange(start, end)
                &&& forall|e: int|
                    end < e <= bound ==> !self@.contains_key(#[trigger] text.subrange(start, e))
            },
            None => forall|e: int|
                start < e <= bound ==> !self@.contains_key(#[trigger] text.subrange(start, e)),
        }
    }

    /// While the nodes whose paths end at `end` are visited from the deepest
    /// on: `best` is right up to `end` where the pattern from `start` to
    /// `end` is longer than `depth`, and up to the byte before elsewhere.
    spec fn partly_ok(
        &self,
        text: Seq<u8>,
        start: int,
        end: int,
        depth: int,
        best: Option<usize>,
    ) -> bool {
        self.best_ok(
            text,
            start,
            if end - start > depth {
                end
            } else {
                end - 1
            },
            best,
        )
    }

    /// What `best_ok` says is what the policy calls the longest end.
    proof fn lemma_best_is_longest(&self, text: Seq<u8>, start: int, best: Option<usize>)
        requires
            self.trie(),
            0 <= start < text.len(),
            self.best_ok(text, start, text.len() as int, best),
        ensures
            match best {
                Some(m) => {
                    let end = start + self.paths@[m as int].len();
                    &&& longest_end(self@, text, start, text.len() as int) == end
                    &&& start < end <= text.len()
                    &&& self.nodes[m as int].len == end - start
                    &&& self.nodes[m as int].value is Some
                    &&& self@[text.subrange(start, end)] == (
                    self.nodes[m as int].value->0).payload()
                },
                None => longest_end(self@, text, start, text.len() as int) == start,
            },
    {
        match best {
            Some(m) => {
                let end = start + self.paths@[m as int].len();
                assert(self.node_wf(m as int));
                assert(self@.contains_key(text.subrange(start, end)));
                lemma_longest_end_unique(self@, text, start, text.len() as int, end);
            },
            None => {
                lemma_longest_end_unique(self@, text, start, text.len() as int, start);
            },
        }
    }

    /// A pattern that ends at `end` is the path of a node with a payload.
    proof fn lemma_pattern_node(&self, text: Seq<u8>, start: int, end: int) -> (m: int)
        requires
            self.trie(),
            0 <= start <= end <= text.len(),
            self@.contains_key(text.subrange(start, end)),
        ensures
            ends_at(self.paths@, m, text, 0, end),
            self.paths@[m].len() == end - start,
            self.nodes[m].value is Some,
    {
        self.index@[text.subrange(start, end)]
    }

    /// For each position of `text`, the longest pattern that starts there.
    fn longest_matches(&self, text: &[u8]) -> (best: Vec<Option<usize>>)
        requires
            self.trie(),
            self.linked(),
        ensures
            best.len() == text.len(),
            forall|s: int|
                0 <= s < text.len() ==> #[trigger] self.best_ok(
                    text@,
                    s,
                    text.len() as int,
                    best@[s],
                ),
    {
        let n = text.len();
        let mut best: Vec<Option<usize>> = Vec::new();
        while best.len() < n
            invariant
                best.len() <= n,
                forall|s: int| 0 <= s < best.len() ==> best@[s] is None,
            decreases n - best.len(),
        {
            best.push(None);
        }
        let mut cur = self.root;
        let mut idx: usize = 0;
        proof {
            assert(self.node_wf(0));
            assert(self.paths@[0] =~= text@.subrange(0, 0));
            assert forall|m: int| #[trigger]
                ends_at(self.paths@, m, text@, 0, 0) implies self.paths@[m].len()
                <= self.paths@[0].len() by {}
            assert forall|s: int| 0 <= s < n implies #[trigger] self.best_ok(
                text@,
                s,
                0,
                best@[s],
            ) by {}
        }
        while idx < n
            invariant
                self.trie(),
                self.linked(),
                n == text.len(),
                best.len() == n,
                idx <= n,
                deepest_at(self.paths@, cur as int, text@, 0, idx as int),
                forall|s: int|
                    0 <= s < n ==> #[trigger] self.best_ok(text@, s, idx as int, best@[s]),
            decreases n - idx,
        {
            cur = self.next_state(cur, text[idx], Ghost(text@), Ghost(0), Ghost(idx as int));
            let end = idx + 1;
            let mut p = cur;
            proof {
                let depth = self.paths@[p as int].len() as int;
                assert forall|s: int| 0 <= s < n implies #[trigger] self.partly_ok(
                    text@,
                    s,
                    end as int,
                    depth,
                    best@[s],
                ) by {
                    assert(self.best_ok(text@, s, idx as int, best@[s]));
                    if end - s > depth {
                        if self@.contains_key(text@.subrange(s, end as int)) {
                            let m = self.lemma_pattern_node(text@, s, end as int);
                        }
                    }
                }
            }
            while p != self.root
                invariant
                    self.trie(),
                    self.linked(),
                    n == text.len(),
                    best.len() == n,
                    end == idx + 1,
                    end <= n,
                    ends_at(self.paths@, p as int, text@, 0, end as int),
                    forall|s: int|
                        0 <= s < n ==> #[trigger] self.partly_ok(
                            text@,
                            s,
                            end as int,
                            self.paths@[p as int].len() as int,
                            best@[s],
                        ),
                decreases self.paths@[p as int].len(),
            {
                let ghost before = best@;
                proof {
                    assert(self.node_wf(p as int));
                    assert(self.link_ok(p as int));
                }
                if self.nodes[p].value.is_some() {
                    let start = end - self.nodes[p].len;
                    best[start] = Some(p);
                }
                let fail = self.nodes[p].fail;
                proof {
                    let paths = self.paths@;
                    let e = end as int;
                    lemma_ends_at_trans(paths, fail as int, p as int, 1, text@, 0, e);
                    let shallow = paths[fail as int].len() as int;
                    let deep = paths[p as int].len() as int;
                    assert forall|s: int| 0 <= s < n implies #[trigger] self.partly_ok(
                        text@,
                        s,
                        e,
                        shallow,
                        best@[s],
                    ) by {
                        assert(self.partly_ok(text@, s, e, deep, before[s]));
                        if e - s == paths[p as int].len() {
                            if self.nodes[p as int].value is None {
                                if self@.contains_key(text@.subrange(s, e)) {
                                    let m = self.lemma_pattern_node(text@, s, e);
                                    self.lemma_ends_at_same(m, p as int, text@, 0, e);
                                }
                            }
                        } else if paths[fail as int].len() < e - s < paths[p as int].len() {
                            if self@.contains_key(text@.subrange(s, e)) {
                                let m = self.lemma_pattern_node(text@, s, e);
                                lemma_ends_at_nest(paths, m, p as int, text@, 0, e);
                            }
                        }
                    }
                }
                p = fail;
            }
            proof {
                assert(self.node_wf(0));
                assert forall|s: int| 0 <= s < n implies #[trigger] self.best_ok(
                    text@,
                    s,
                    end as int,
                    best@[s],
                ) by {
                    assert(self.partly_ok(text@, s, end as int, 0, best@[s]));
                }
            }
            idx += 1;
        }
        best
    }

    /// Rewrites `text`: behind each accepted span reading goes on, and what
    /// lies between two accepted spans is copied.
    fn replace(&self, text: &[u8]) -> (ret: Vec<u8>)
        requires
            self.trie(),
            self.linked(),
        ensures
            ret@ == rewrite(self@, text@),
    {
        let n = text.len();
        let best = self.longest_matches(text);
        let mut last: usize = 0;
        let mut ret: Vec<u8> = Vec::new();
        let mut pos: usize = 0;
        proof {
            assert(ret@ + rewrite(self@, text@) =~= rewrite(self@, text@));
        }
        while pos < n
            invariant
                self.trie(),
                n == text.len(),
                best.len() == n,
                last <= pos <= n,
                forall|s: int| 0 <= s < n ==> #[trigger] self.best_ok(text@, s, n as int, best@[s]),
                rewrite(self@, text@) == ret@ + render(
                    self@,
                    text@,
                    accepted_from(self@, text@, pos as int),
                    last as int,
                ),
            decreases n - pos,
        {
            proof {
                assert(self.best_ok(text@, pos as int, n as int, best@[pos as int]));
                self.lemma_best_is_longest(text@, pos as int, best@[pos as int]);
            }
            match best[pos] {
                Some(m) => {
                    let end = pos + self.nodes[m].len;
                    let ghost before = ret@;
                    extend(&mut ret, slice_subrange(text, last, pos));
                    match &self.nodes[m].value {
                        Some(value) => extend(&mut ret, value.as_payload()),
                        None => {},
                    }
                    proof {
                        let span = Span { start: pos as int, end: end as int };
                        let rest = accepted_from(self@, text@, end as int);
                        let spans = accepted_from(self@, text@, pos as int);
                        assert(spans == seq![span] + rest);
                        assert(spans.drop_first() =~= rest);
                        assert(spans[0] == span);
                        let tail = render(self@, text@, rest, end as int);
                        let gap = text@.subrange(last as int, pos as int);
                        let payload = self@[text@.subrange(pos as int, end as int)];
                        assert(render(self@, text@, spans, last as int) == gap + payload + tail);
                        assert(before + (gap + payload + tail) =~= (before + gap + payload) + tail);
                    }
                    last = end;
                    pos = end;
                },
                None => {
                    proof {
                        assert(accepted_from(self@, text@, pos as int) == accepted_from(
                            self@,
                            text@,
                            pos + 1,
                        ));
                    }
                    pos += 1;
                },
            }
        }
        proof {
            assert(accepted_from(self@, text@, pos as int).len() == 0);
        }
        extend(&mut ret, slice_subrange(text, last, n));
        ret
    }
}

impl<T: Payload> NaiveAc<T> {
    /// The automaton is a trie with all its failure links in place.
    pub closed spec fn wf(&self) -> bool {
        self.inner.wf() && self.inner.linked()
    }

    /// The number of states. State 0 is the root.
    pub closed spec fn states(&self) -> nat {
        self.inner.nodes.len() as nat
    }

    /// The bytes that lead from the root to state `n`.
    pub closed spec fn path(&self, n: int) -> Seq<u8> {
        self.inner.paths@[n]
    }

    /// The state that the failure link of state `n` leads to.
    pub closed spec fn fail(&self, n: int) -> int {
        self.inner.nodes[n].fail as int
    }

    /// The path `long` ends with the shorter path `short`.
    pub open spec fn proper_suffix(short: Seq<u8>, long: Seq<u8>) -> bool {
        &&& short.len() < long.len()
        &&& short == long.subrange(long.len() - short.len(), long.len() as int)
    }

    /// The root has the empty path, and no two states have the same path.
    pub proof fn lemma_paths_differ(&self, n: int, m: int)
        requires
            self.wf(),
            0 <= n < self.states(),
            0 <= m < self.states(),
            n != m,
        ensures
            self.path(0) == Seq::<u8>::empty(),
            self.path(n) != self.path(m),
    {
        assert(self.inner.node_wf(n));
        assert(self.inner.node_wf(m));
    }

    /// The path of every state but the root is the beginning of a pattern.
    pub proof fn lemma_path_begins_pattern(&self, n: int) -> (key: Seq<u8>)
        requires
            self.wf(),
            0 < n < self.states(),
        ensures
            self@.contains_key(key),
            self.path(n).is_prefix_of(key),
    {
        assert(self.inner.grounded(n));
        choose|key: Seq<u8>| #[trigger]
            self.inner@.contains_key(key) && self.inner.paths@[n].is_prefix_of(key)
    }

    /// Every beginning of a pattern is the path of a state.
    pub proof fn lemma_pattern_has_states(&self, key: Seq<u8>, len: int) -> (n: int)
        requires
            self.wf(),
            self@.contains_key(key),
            0 <= len <= key.len(),
        ensures
            0 <= n < self.states(),
            self.path(n) == key.subrange(0, len),
        decreases key.len() - len,
    {
        if len == key.len() {
            assert(key.subrange(0, len) =~= key);
            self.inner.index@[key]
        } else {
            let child = self.lemma_pattern_has_states(key, len + 1);
            assert(self.inner.node_wf(child));
            assert(key.subrange(0, len + 1).drop_last() =~= key.subrange(0, len));
            self.inner.index@[key.subrange(0, len)]
        }
    }

    /// The failure link of the root leads to the root. That of any other
    /// state leads to a state whose path is a proper suffix of the state's
    /// own path: to another state, nearer to the root.
    pub proof fn lemma_fail_is_suffix(&self, n: int)
        requires
            self.wf(),
            0 < n < self.states(),
        ensures
            self.fail(0) == 0,
            0 <= self.fail(n) < self.states(),
            Self::proper_suffix(self.path(self.fail(n)), self.path(n)),
    {
        assert(self.inner.link_ok(0));
        assert(self.inner.link_ok(n));
    }

    /// No path that is a proper suffix of the path of a state is longer
    /// than the path that the state's failure link leads to.
    pub proof fn lemma_fail_is_longest(&self, n: int, m: int)
        requires
            self.wf(),
            0 < n < self.states(),
            0 <= m < self.states(),
            Self::proper_suffix(self.path(m), self.path(n)),
        ensures
            self.path(m).len() <= self.path(self.fail(n)).len(),
    {
        let paths = self.inner.paths@;
        assert(self.inner.link_ok(n));
        assert(ends_at(paths, m, paths[n], 1, paths[n].len() as int));
    }

    /// Rewrites `text` with the dictionary: every accepted occurrence of a
    /// pattern is replaced by its payload, the rest is copied.
    pub fn replace(&self, text: &[u8]) -> (ret: Vec<u8>)
        requires
            self.wf(),
        ensures
            ret@ == rewrite(self@, text@),
    {
        self.inner.replace(text)
    }
}

} // verus!
