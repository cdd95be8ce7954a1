//! A prefix tree of byte strings, for membership tests.
//!
//! The tree holds a set of byte strings that is closed under prefixes:
//! with a string it holds every string that the string begins with, the
//! empty one included. Nothing marks where an entered string ends, so a
//! prefix of an entered string counts as held.

use vstd::prelude::*;
use vstd::slice::slice_subrange;

verus! {

/// What is left of `entries` once `data` is taken out: a non-empty prefix of
/// `data` goes unless some entry that is no prefix of `data` begins with it.
/// Everything else stays.
pub open spec fn pruned(entries: Set<Seq<u8>>, data: Seq<u8>) -> Set<Seq<u8>> {
    Set::new(
        |x: Seq<u8>|
            entries.contains(x) && (x.len() == 0 || !x.is_prefix_of(data) || exists|y: Seq<u8>|
                #[trigger] entries.contains(y) && x.is_prefix_of(y) && !y.is_prefix_of(data)),
    )
}

/// The prefixes of `data`, itself and the empty string included.
pub open spec fn prefixes(data: Seq<u8>) -> Set<Seq<u8>> {
    Set::new(|x: Seq<u8>| x.is_prefix_of(data))
}

/// The number of slots of `slots` that hold something.
spec fn used<T>(slots: Seq<Option<T>>) -> nat
    decreases slots.len(),
{
    if slots.len() == 0 {
        0
    } else {
        used(slots.drop_last()) + if slots.last() is Some {
            1nat
        } else {
            0nat
        }
    }
}

/// No more slots are used than there are, and none is used exactly when
/// all are empty.
proof fn lemma_used_bounds<T>(slots: Seq<Option<T>>)
    ensures
        used(slots) <= slots.len(),
        used(slots) == 0 <==> forall|i: int| 0 <= i < slots.len() ==> slots[i] is None,
    decreases slots.len(),
{
    if slots.len() > 0 {
        lemma_used_bounds(slots.drop_last());
        if used(slots) == 0 {
            assert forall|i: int| 0 <= i < slots.len() implies slots[i] is None by {
                if i < slots.len() - 1 {
                    assert(slots.drop_last()[i] is None);
                }
            }
        }
        if forall|i: int| 0 <= i < slots.len() ==> slots[i] is None {
            assert forall|i: int| 0 <= i < slots.drop_last().len() implies slots.drop_last()[i]
                is None by {
                assert(slots[i] is None);
            }
        }
    }
}

/// Filling or clearing one slot changes the count by that slot alone.
proof fn lemma_used_update<T>(slots: Seq<Option<T>>, i: int, slot: Option<T>)
    requires
        0 <= i < slots.len(),
    ensures
        used(slots.update(i, slot)) + (if slots[i] is Some {
            1nat
        } else {
            0nat
        }) == used(slots) + (if slot is Some {
            1nat
        } else {
            0nat
        }),
    decreases slots.len(),
{
    let after = slots.update(i, slot);
    if i == slots.len() - 1 {
        assert(after.drop_last() =~= slots.drop_last());
    } else {
        lemma_used_update(slots.drop_last(), i, slot);
        assert(after.drop_last() =~= slots.drop_last().update(i, slot));
    }
}

/// Two strings with the same first byte: one begins with the other exactly
/// when that holds of what follows the first byte.
proof fn lemma_prefix_step(x: Seq<u8>, y: Seq<u8>)
    requires
        x.len() > 0,
        y.len() > 0,
        x[0] == y[0],
    ensures
        x.is_prefix_of(y) == x.drop_first().is_prefix_of(y.drop_first()),
{
    let xr = x.drop_first();
    let yr = y.drop_first();
    if x.is_prefix_of(y) {
        assert(xr =~= yr.subrange(0, xr.len() as int));
    }
    if xr.is_prefix_of(yr) {
        assert forall|i: int| 0 <= i < x.len() implies x[i] == y[i] by {
            if i > 0 {
                assert(x[i] == xr[i - 1]);
                assert(yr.subrange(0, xr.len() as int)[i - 1] == yr[i - 1]);
            }
        }
        assert(x =~= y.subrange(0, x.len() as int));
    }
}

struct Node {
    /// The subtree below each byte.
    next: Vec<Option<Node>>,
    /// The number of subtrees.
    in_use: usize,
}

impl Node {
    /// Every node of the subtree has a slot for each byte and knows how
    /// many of them are taken.
    pub closed spec fn wf(&self) -> bool
        decreases self,
    {
        &&& self.next.len() == 256
        &&& self.in_use == used(self.next@)
        &&& forall|b: int|
            0 <= b < 256 ==> match #[trigger] self.next[b] {
                Some(child) => child.wf(),
                None => true,
            }
    }

    /// The subtree holds `data`: there is a way down from this node along
    /// the bytes of `data`.
    pub closed spec fn holds(&self, data: Seq<u8>) -> bool
        decreases data.len(),
    {
        data.len() == 0 || match self.next[data[0] as int] {
            Some(child) => child.holds(data.drop_first()),
            None => false,
        }
    }

    /// Some string that the subtree holds begins with `x` and is no prefix
    /// of `data`.
    spec fn runs_past(&self, x: Seq<u8>, data: Seq<u8>) -> bool {
        exists|y: Seq<u8>| #[trigger] self.holds(y) && x.is_prefix_of(y) && !y.is_prefix_of(data)
    }

    /// What `remove` leaves of `x`.
    spec fn keeps(&self, x: Seq<u8>, data: Seq<u8>) -> bool {
        self.holds(x) && (x.len() == 0 || !x.is_prefix_of(data) || self.runs_past(x, data))
    }

    /// Below the first byte, `runs_past` is the child's.
    proof fn lemma_runs_past_step(&self, x: Seq<u8>, data: Seq<u8>)
        requires
            x.len() > 0,
            data.len() > 0,
            x[0] == data[0],
            self.next[x[0] as int] is Some,
        ensures
            self.runs_past(x, data) == (self.next[x[0] as int]->0).runs_past(
                x.drop_first(),
                data.drop_first(),
            ),
    {
        let child = self.next[x[0] as int]->0;
        let xr = x.drop_first();
        let rest = data.drop_first();
        if self.runs_past(x, data) {
            let y = choose|y: Seq<u8>| #[trigger]
                self.holds(y) && x.is_prefix_of(y) && !y.is_prefix_of(data);
            assert(y[0] == x[0]) by {
                assert(y.subrange(0, x.len() as int)[0] == y[0]);
            }
            lemma_prefix_step(x, y);
            lemma_prefix_step(y, data);
            assert(child.holds(y.drop_first()));
        }
        if child.runs_past(xr, rest) {
            let yr = choose|yr: Seq<u8>| #[trigger]
                child.holds(yr) && xr.is_prefix_of(yr) && !yr.is_prefix_of(rest);
            let y = seq![x[0]] + yr;
            assert(y.drop_first() =~= yr);
            lemma_prefix_step(x, y);
            lemma_prefix_step(y, data);
            assert(self.holds(y));
        }
    }

    /// A node without subtrees.
    fn new() -> (node: Node)
        ensures
            node.wf(),
            forall|x: Seq<u8>| #[trigger] node.holds(x) <==> x.len() == 0,
    {
        Default::default()
    }
}

impl Default for Node {
    /// A node without subtrees.
    fn default() -> (node: Node)
        ensures
            node.wf(),
            forall|x: Seq<u8>| #[trigger] node.holds(x) <==> x.len() == 0,
    {
        let mut next: Vec<Option<Node>> = Vec::new();
        while next.len() < 256
            invariant
                next.len() <= 256,
                forall|b: int| 0 <= b < next.len() ==> next[b] is None,
            decreases 256 - next.len(),
        {
            next.push(None);
        }
        proof {
            lemma_used_bounds(next@);
        }
        Node { next, in_use: 0 }
    }
}

impl Node {
    /// Makes the way down along `data`.
    fn insert(&mut self, data: &[u8])
        requires
            old(self).wf(),
        ensures
            final(self).wf(),
            forall|x: Seq<u8>| #[trigger]
                final(self).holds(x) <==> old(self).holds(x) || x.is_prefix_of(data@),
        decreases data@.len(),
    {
        if data.len() > 0 {
            let cur = data[0];
            let rest = slice_subrange(data, 1, data.len());
            let ghost slot = cur as int;
            let ghost fresh = self.next[slot] is None;
            proof {
                lemma_used_bounds(self.next@);
            }
            if self.next[cur as usize].is_none() {
                self.in_use += 1;
                self.next[cur as usize] = Some(Node::new());
            }
            let ghost before = self.next[slot]->0;
            proof {
                assert(self.next@ =~= old(self).next@.update(slot, Some(before)));
                lemma_used_update(old(self).next@, slot, Some(before));
            }
            match &mut self.next[cur as usize] {
                Some(next) => next.insert(rest),
                None => {},
            }
            proof {
                let after = self.next[slot]->0;
                assert(rest@ =~= data@.drop_first());
                assert(self.next@ =~= old(self).next@.update(slot, Some(after)));
                lemma_used_update(old(self).next@, slot, Some(after));
                assert forall|b: int| 0 <= b < 256 implies match #[trigger] self.next[b] {
                    Some(child) => child.wf(),
                    None => true,
                } by {
                    if b != slot {
                        assert(self.next[b] == old(self).next[b]);
                    }
                }
                assert forall|x: Seq<u8>| #[trigger]
                    self.holds(x) <==> old(self).holds(x) || x.is_prefix_of(data@) by {
                    if x.len() > 0 {
                        if x[0] == cur {
                            lemma_prefix_step(x, data@);
                            let xr = x.drop_first();
                            assert(after.holds(xr) <==> before.holds(xr) || xr.is_prefix_of(rest@));
                            if fresh {
                                assert(before.holds(xr) <==> xr.len() == 0);
                                assert(xr.len() == 0 ==> xr.is_prefix_of(rest@));
                            }
                        } else {
                            assert(self.next[x[0] as int] == old(self).next[x[0] as int]);
                            assert(x.is_prefix_of(data@) ==> x[0] == data@.subrange(
                                0,
                                x.len() as int,
                            )[0]);
                        }
                    }
                }
            }
        } else {
            proof {
                assert forall|x: Seq<u8>| x.is_prefix_of(data@) implies self.holds(x) by {}
            }
        }
    }

    /// Goes down along `data` as far as there is a way and, coming back,
    /// cuts off each subtree on that way that has no subtree of its own.
    fn remove(&mut self, data: &[u8])
        requires
            old(self).wf(),
        ensures
            final(self).wf(),
            forall|x: Seq<u8>| #[trigger] final(self).holds(x) <==> old(self).keeps(x, data@),
        decreases data@.len(),
    {
        if data.len() > 0 {
            let cur = data[0];
            let rest = slice_subrange(data, 1, data.len());
            let ghost slot = cur as int;
            let ghost before = self.next[slot]->0;
            let mut emptied = false;
            match &mut self.next[cur as usize] {
                Some(next) => {
                    next.remove(rest);
                    emptied = next.is_empty();
                },
                None => {},
            }
            let ghost after = self.next[slot]->0;
            proof {
                assert(rest@ =~= data@.drop_first());
                lemma_used_bounds(old(self).next@);
                if old(self).next[slot] is Some {
                    assert(self.next@ =~= old(self).next@.update(slot, Some(after)));
                    lemma_used_update(old(self).next@, slot, Some(after));
                } else {
                    assert(self.next@ =~= old(self).next@);
                }
            }
            if emptied {
                proof {
                    lemma_used_update(self.next@, slot, None);
                }
                self.next[cur as usize] = None;
                self.in_use -= 1;
            }
            proof {
                assert forall|b: int| 0 <= b < 256 implies match #[trigger] self.next[b] {
                    Some(child) => child.wf(),
                    None => true,
                } by {
                    if b != slot {
                        assert(self.next[b] == old(self).next[b]);
                    }
                }
                assert forall|x: Seq<u8>| #[trigger]
                    self.holds(x) <==> old(self).keeps(x, data@) by {
                    if x.len() > 0 {
                        if x[0] != cur {
                            assert(self.next[x[0] as int] == old(self).next[x[0] as int]);
                            assert(x.is_prefix_of(data@) ==> x[0] == data@.subrange(
                                0,
                                x.len() as int,
                            )[0]);
                        } else if old(self).next[slot] is Some {
                            let xr = x.drop_first();
                            lemma_prefix_step(x, data@);
                            old(self).lemma_runs_past_step(x, data@);
                            assert(after.holds(xr) <==> before.keeps(xr, rest@));
                            if xr.len() == 0 {
                                old(self).lemma_emptied(x, data@, after);
                            } else if emptied {
                                lemma_used_bounds(after.next@);
                                assert(after.next[xr[0] as int] is None);
                            }
                        }
                    }
                }
            }
        } else {
            proof {
                assert forall|x: Seq<u8>| #[trigger]
                    self.holds(x) <==> old(self).keeps(x, data@) by {
                    if x.len() > 0 && x.is_prefix_of(data@) {
                    }
                }
            }
        }
    }

    /// The subtree below the first byte of `data` goes exactly when nothing
    /// in it runs past `data`: when `after`, which `remove` left of it, has
    /// no subtree of its own.
    proof fn lemma_emptied(&self, x: Seq<u8>, data: Seq<u8>, after: Node)
        requires
            x.len() == 1,
            data.len() > 0,
            x[0] == data[0],
            self.next[x[0] as int] is Some,
            after.wf(),
            forall|z: Seq<u8>| #[trigger]
                after.holds(z) <==> (self.next[x[0] as int]->0).keeps(z, data.drop_first()),
        ensures
            self.runs_past(x, data) <==> after.in_use != 0,
    {
        let before = self.next[x[0] as int]->0;
        let rest = data.drop_first();
        lemma_used_bounds(after.next@);
        assert(x.drop_first() =~= Seq::<u8>::empty());
        assert(x =~= seq![x[0]]);
        if after.in_use != 0 {
            let b = choose|b: int| 0 <= b < 256 && after.next[b] is Some;
            let z = seq![b as u8];
            assert(z.drop_first() =~= Seq::<u8>::empty());
            assert((after.next[b]->0).holds(z.drop_first()));
            assert(after.holds(z));
            assert(before.keeps(z, rest));
            let y = if z.is_prefix_of(rest) {
                choose|y: Seq<u8>| #[trigger]
                    before.holds(y) && z.is_prefix_of(y) && !y.is_prefix_of(rest)
            } else {
                z
            };
            let whole = x + y;
            assert(whole.drop_first() =~= y);
            assert(y.len() > 0);
            lemma_prefix_step(whole, data);
            assert(x.is_prefix_of(whole)) by {
                assert(whole.subrange(0, 1) =~= x);
            }
            assert(self.holds(whole));
        }
        if self.runs_past(x, data) {
            let y = choose|y: Seq<u8>| #[trigger]
                self.holds(y) && x.is_prefix_of(y) && !y.is_prefix_of(data);
            assert(y[0] == x[0]) by {
                assert(y.subrange(0, 1)[0] == y[0]);
            }
            let yr = y.drop_first();
            lemma_prefix_step(y, data);
            assert(before.holds(yr));
            if yr.len() == 0 {
                assert(yr.is_prefix_of(rest));
            }
            assert(yr.len() > 0);
            assert(yr.is_prefix_of(yr)) by {
                assert(yr.subrange(0, yr.len() as int) =~= yr);
            }
            assert(before.runs_past(yr, rest));
            assert(after.holds(yr));
            assert(after.next[yr[0] as int] is Some);
        }
    }

    /// Whether there is a way down along `data`.
    fn contains(&self, data: &[u8]) -> (found: bool)
        requires
            self.wf(),
        ensures
            found == self.holds(data@),
        decreases data@.len(),
    {
        if data.len() > 0 {
            let cur = data[0];
            let rest = slice_subrange(data, 1, data.len());
            proof {
                assert(rest@ =~= data@.drop_first());
            }
            match &self.next[cur as usize] {
                Some(next) => next.contains(rest),
                None => false,
            }
        } else {
            true
        }
    }

    /// With a string the subtree holds whatever the string begins with.
    proof fn lemma_holds_prefix(&self, x: Seq<u8>, y: Seq<u8>)
        requires
            self.holds(y),
            x.is_prefix_of(y),
        ensures
            self.holds(x),
        decreases x.len(),
    {
        if x.len() > 0 {
            assert(x[0] == y.subrange(0, x.len() as int)[0]);
            lemma_prefix_step(x, y);
            (self.next[x[0] as int]->0).lemma_holds_prefix(x.drop_first(), y.drop_first());
        }
    }

    /// Whether the node has no subtree.
    fn is_empty(&self) -> (empty: bool)
        ensures
            empty == (self.in_use == 0),
    {
        self.in_use == 0
    }

    /// The two subtrees have the same shape.
    pub closed spec fn alike(&self, other: &Node) -> bool
        decreases self,
    {
        &&& self.next.len() == other.next.len()
        &&& self.in_use == other.in_use
        &&& forall|b: int|
            0 <= b < self.next.len() ==> match #[trigger] self.next[b] {
                Some(child) => other.next[b] is Some && child.alike(&other.next[b]->0),
                None => other.next[b] is None,
            }
    }

    /// Subtrees of the same shape use as many slots.
    proof fn lemma_alike_used(mine: Seq<Option<Node>>, other: Seq<Option<Node>>)
        requires
            mine.len() == other.len(),
            forall|b: int| 0 <= b < mine.len() ==> (mine[b] is Some <==> other[b] is Some),
        ensures
            used(mine) == used(other),
        decreases mine.len(),
    {
        if mine.len() > 0 {
            Self::lemma_alike_used(mine.drop_last(), other.drop_last());
        }
    }

    /// Subtrees of the same shape are both well formed or neither is.
    proof fn lemma_alike_wf(&self, other: &Node)
        requires
            self.alike(other),
        ensures
            self.wf() == other.wf(),
        decreases self,
    {
        Self::lemma_alike_used(self.next@, other.next@);
        assert forall|b: int| 0 <= b < self.next.len() && self.next[b] is Some implies (
        self.next[b]->0).wf() == (other.next[b]->0).wf() by {
            assert(self.next[b] is Some);
            (self.next[b]->0).lemma_alike_wf(&other.next[b]->0);
        }
        if self.wf() {
            assert forall|b: int| 0 <= b < 256 implies match #[trigger] other.next[b] {
                Some(child) => child.wf(),
                None => true,
            } by {
                assert(self.next[b] is Some <==> other.next[b] is Some);
            }
        }
        if other.wf() {
            assert forall|b: int| 0 <= b < 256 implies match #[trigger] self.next[b] {
                Some(child) => child.wf(),
                None => true,
            } by {
                assert(self.next[b] is Some <==> other.next[b] is Some);
            }
        }
    }

    /// Subtrees of the same shape hold the same strings.
    proof fn lemma_alike_holds(&self, other: &Node, data: Seq<u8>)
        requires
            self.alike(other),
            self.wf(),
        ensures
            self.holds(data) == other.holds(data),
        decreases data.len(),
    {
        if data.len() > 0 {
            let b = data[0] as int;
            assert(self.next[b] is Some <==> other.next[b] is Some);
            if self.next[b] is Some {
                let child = self.next[b]->0;
                let twin = other.next[b]->0;
                child.lemma_alike_holds(&twin, data.drop_first());
            }
        }
    }

    /// A copy of the subtree.
    fn duplicate(&self) -> (copy: Node)
        ensures
            self.alike(&copy),
        decreases self,
    {
        let mut next: Vec<Option<Node>> = Vec::new();
        let mut b: usize = 0;
        while b < self.next.len()
            invariant
                b <= self.next.len(),
                next.len() == b,
                forall|i: int|
                    0 <= i < b ==> match #[trigger] self.next[i] {
                        Some(child) => next[i] is Some && child.alike(&next[i]->0),
                        None => next[i] is None,
                    },
            decreases self.next.len() - b,
        {
            let slot = match &self.next[b] {
                Some(child) => Some(child.duplicate()),
                None => None,
            };
            next.push(slot);
            b += 1;
        }
        Node { next, in_use: self.in_use }
    }
}

impl Clone for Node {
    fn clone(&self) -> (copy: Self)
        ensures
            self.alike(&copy),
    {
        self.duplicate()
    }
}

/// A set of byte strings, closed under prefixes.
pub struct NaiveTrie {
    head: Node,
}

impl View for NaiveTrie {
    type V = Set<Seq<u8>>;

    /// The strings that the tree holds.
    closed spec fn view(&self) -> Set<Seq<u8>> {
        Set::new(|data: Seq<u8>| self.head.holds(data))
    }
}

impl NaiveTrie {
    /// Every node has a slot for each byte and knows how many are taken.
    pub closed spec fn wf(&self) -> bool {
        self.head.wf()
    }

    /// The tree holds the empty string, and with a string whatever the
    /// string begins with.
    pub proof fn lemma_prefix_closed(&self, x: Seq<u8>, y: Seq<u8>)
        requires
            self@.contains(y),
            x.is_prefix_of(y),
        ensures
            self@.contains(Seq::<u8>::empty()),
            self@.contains(x),
    {
        self.head.lemma_holds_prefix(x, y);
    }

    /// A tree that holds the empty string alone.
    pub fn new() -> (trie: Self)
        ensures
            trie.wf(),
            trie@ == Set::<Seq<u8>>::empty().insert(Seq::empty()),
    {
        Default::default()
    }
}

impl Default for NaiveTrie {
    /// A tree that holds the empty string alone.
    fn default() -> (trie: Self)
        ensures
            trie.wf(),
            trie@ == Set::<Seq<u8>>::empty().insert(Seq::empty()),
    {
        let trie = NaiveTrie { head: Node::new() };
        proof {
            assert forall|x: Seq<u8>| trie@.contains(x) <==> Set::<Seq<u8>>::empty().insert(
                Seq::empty(),
            ).contains(x) by {
                assert(trie.head.holds(x) <==> x.len() == 0);
                if x.len() == 0 {
                    assert(x =~= Seq::<u8>::empty());
                }
            }
            assert(trie@ =~= Set::<Seq<u8>>::empty().insert(Seq::empty()));
        }
        trie
    }
}

impl Clone for NaiveTrie {
    /// A tree of its own that holds the same strings.
    fn clone(&self) -> (copy: Self)
        ensures
            copy.wf() == self.wf(),
            self.wf() ==> copy@ == self@,
    {
        let copy = NaiveTrie { head: self.head.clone() };
        proof {
            self.head.lemma_alike_wf(&copy.head);
            if self.wf() {
                assert forall|x: Seq<u8>| self@.contains(x) <==> copy@.contains(x) by {
                    self.head.lemma_alike_holds(&copy.head, x);
                }
                assert(copy@ =~= self@);
            }
        }
        copy
    }
}

impl NaiveTrie {
    /// Enters `data`, and with it all its prefixes.
    pub fn insert(&mut self, data: &[u8])
        requires
            old(self).wf(),
        ensures
            final(self).wf(),
            final(self)@ == old(self)@.union(prefixes(data@)),
    {
        self.head.insert(data);
        proof {
            assert forall|x: Seq<u8>| self@.contains(x) <==> old(self)@.union(
                prefixes(data@),
            ).contains(x) by {
                assert(self.head.holds(x) <==> old(self).head.holds(x) || x.is_prefix_of(data@));
            }
            assert(self@ =~= old(self)@.union(prefixes(data@)));
        }
    }

    /// Takes `data` out, and each of its prefixes through which no other
    /// entry runs. The empty string stays.
    pub fn remove(&mut self, data: &[u8])
        requires
            old(self).wf(),
        ensures
            final(self).wf(),
            final(self)@ == pruned(old(self)@, data@),
    {
        self.head.remove(data);
        proof {
            let before = old(self).head;
            assert forall|x: Seq<u8>| self@.contains(x) <==> pruned(old(self)@, data@).contains(
                x,
            ) by {
                assert(self.head.holds(x) <==> before.keeps(x, data@));
                if before.runs_past(x, data@) {
                    let y = choose|y: Seq<u8>| #[trigger]
                        before.holds(y) && x.is_prefix_of(y) && !y.is_prefix_of(data@);
                    assert(old(self)@.contains(y));
                }
                if exists|y: Seq<u8>| #[trigger]
                    old(self)@.contains(y) && x.is_prefix_of(y) && !y.is_prefix_of(data@) {
                    let y = choose|y: Seq<u8>| #[trigger]
                        old(self)@.contains(y) && x.is_prefix_of(y) && !y.is_prefix_of(data@);
                    assert(before.holds(y));
                }
            }
            assert(self@ =~= pruned(old(self)@, data@));
        }
    }

    /// Whether the tree holds `data`.
    pub fn contains(&self, data: &[u8]) -> (found: bool)
        requires
            self.wf(),
        ensures
            found == self@.contains(data@),
    {
        self.head.contains(data)
    }
}

} // verus!
