//! A BK-tree: an index of strings that answers "which stored strings lie within
//! a given edit distance of this query" without scanning every entry.
pub mod distance;
pub mod laws;

use vstd::prelude::*;
use vstd::multiset::Multiset;
use std::collections::VecDeque;
use crate::distance::{lev, levenshtein_distance, lemma_lev_zero, lemma_lev_reverse_triangle};

verus! {

broadcast use {vstd::seq_lib::group_to_multiset_ensures, vstd::multiset::group_multiset_axioms};

/// A value that can be read as a string, so that the tree can measure it.
pub trait Word {
    /// The characters of the value.
    spec fn text(&self) -> Seq<char>;

    /// The value as a string slice.
    fn as_text(&self) -> (r: &str)
        ensures
            r@ == self.text(),
    ;
}

impl Word for String {
    open spec fn text(&self) -> Seq<char> {
        self@
    }

    fn as_text(&self) -> (r: &str) {
        self.as_str()
    }
}

impl<'a> Word for &'a str {
    open spec fn text(&self) -> Seq<char> {
        (*self)@
    }

    fn as_text(&self) -> (r: &str) {
        *self
    }
}

/// One stored value and its subtrees, each reached by an edge labelled with the
/// distance from this value to the value at the subtree's root.
pub struct Node<T> {
    pub word: T,
    pub children: Vec<(usize, Node<T>)>,
}

/// Whether some value in `m` has the characters `t`.
pub open spec fn has_text<T: Word>(m: Multiset<T>, t: Seq<char>) -> bool {
    exists|x: T| #[trigger] m.contains(x) && x.text() == t
}

/// What the tree holds after one insertion: a value whose text is already held
/// is dropped, any other is added.
pub open spec fn add_word<T: Word>(m: Multiset<T>, v: T) -> Multiset<T> {
    if has_text(m, v.text()) {
        m
    } else {
        m.insert(v)
    }
}

/// What the tree holds after inserting `vs` in order.
pub open spec fn add_words<T: Word>(m: Multiset<T>, vs: Seq<T>) -> Multiset<T>
    decreases vs.len(),
{
    if vs.len() == 0 {
        m
    } else {
        add_word(add_words(m, vs.drop_last()), vs.last())
    }
}

/// No two entries share an edge label.
pub open spec fn edges_unique<T>(cs: Seq<(usize, Node<T>)>) -> bool {
    forall|i: int, j: int|
        0 <= i < cs.len() && 0 <= j < cs.len() && i != j ==> cs[i].0 != cs[j].0
}

/// The values held by the subtrees in `cs`.
pub open spec fn contents_of<T>(cs: Seq<(usize, Node<T>)>) -> Multiset<T>
    decreases cs,
{
    if cs.len() == 0 {
        Multiset::empty()
    } else {
        contents_of(cs.drop_last()).add(cs.last().1.contents())
    }
}

impl<T> Node<T> {
    /// The values held by this subtree.
    pub open spec fn contents(&self) -> Multiset<T>
        decreases self,
    {
        Multiset::singleton(self.word).add(contents_of(self.children@))
    }
}

/// No node of the subtree at `n` has two children under the same edge label.
pub open spec fn edges_unique_throughout<T>(n: Node<T>) -> bool
    decreases n,
{
    &&& edges_unique(n.children@)
    &&& forall|i: int|
        0 <= i < n.children@.len() ==> edges_unique_throughout((#[trigger] n.children@[i]).1)
}

impl<T: Word> Node<T> {
    /// The BK-tree shape: edge labels are unique among siblings, and every value
    /// below an edge lies at exactly the edge's distance from this node's value.
    pub open spec fn wf(&self) -> bool
        decreases self,
    {
        &&& edges_unique(self.children@)
        &&& forall|i: int| 0 <= i < self.children@.len() ==> (#[trigger] self.children@[i]).1.wf()
        &&& forall|i: int, x: T|
            0 <= i < self.children@.len() && #[trigger] self.children@[i].1.contents().contains(x)
                ==> lev(self.word.text(), x.text()) == self.children@[i].0
    }
}

proof fn lemma_contents_of_contains<T>(cs: Seq<(usize, Node<T>)>, x: T)
    ensures
        contents_of(cs).contains(x) <==> exists|i: int|
            0 <= i < cs.len() && #[trigger] cs[i].1.contents().contains(x),
    decreases cs.len(),
{
    if cs.len() > 0 {
        let dl = cs.drop_last();
        lemma_contents_of_contains(dl, x);
        if contents_of(dl).contains(x) {
            let i = choose|i: int| 0 <= i < dl.len() && #[trigger] dl[i].1.contents().contains(x);
            assert(cs[i] == dl[i]);
        }
        if cs.last().1.contents().contains(x) {
            assert(cs[cs.len() - 1].1.contents().contains(x));
        }
        assert(contents_of(cs).count(x) == contents_of(dl).count(x) + cs.last().1.contents().count(x));
        if exists|i: int| 0 <= i < cs.len() && #[trigger] cs[i].1.contents().contains(x) {
            let i = choose|i: int| 0 <= i < cs.len() && #[trigger] cs[i].1.contents().contains(x);
            if i < cs.len() - 1 {
                assert(cs[i] == dl[i]);
            }
        }
    }
}

proof fn lemma_contents_of_len<T>(cs: Seq<(usize, Node<T>)>, i: int)
    requires
        0 <= i < cs.len(),
    ensures
        cs[i].1.contents().len() <= contents_of(cs).len(),
    decreases cs.len(),
{
    if i < cs.len() - 1 {
        lemma_contents_of_len(cs.drop_last(), i);
        assert(cs[i] == cs.drop_last()[i]);
    }
}

proof fn lemma_contents_of_update<T>(
    cs: Seq<(usize, Node<T>)>,
    i: int,
    e: (usize, Node<T>),
    m: Multiset<T>,
)
    requires
        0 <= i < cs.len(),
        e.1.contents() == cs[i].1.contents().add(m),
    ensures
        contents_of(cs.update(i, e)) == contents_of(cs).add(m),
    decreases cs.len(),
{
    let u = cs.update(i, e);
    if i == cs.len() - 1 {
        assert(u.drop_last() =~= cs.drop_last());
    } else {
        assert(u.drop_last() =~= cs.drop_last().update(i, e));
        lemma_contents_of_update(cs.drop_last(), i, e, m);
    }
    assert(contents_of(u) =~= contents_of(cs).add(m));
}

proof fn lemma_node_edges_unique<T: Word>(n: Node<T>)
    requires
        n.wf(),
    ensures
        edges_unique_throughout(n),
    decreases n,
{
    assert forall|i: int| 0 <= i < n.children@.len() implies edges_unique_throughout(
        (#[trigger] n.children@[i]).1,
    ) by {
        lemma_node_edges_unique(n.children@[i].1);
    }
}

fn all_at_distance<T: Word>(n: &Node<T>, w: &str, e: usize) -> (r: bool)
    ensures
        r <==> forall|x: T| #[trigger] n.contents().contains(x) ==> lev(w@, x.text()) == e,
    decreases n,
{
    let cs = &n.children;
    proof {
        assert(n.contents().contains(n.word));
    }
    if levenshtein_distance(w, n.word.as_text()) != e {
        return false;
    }
    let len = cs.len();
    for i in 0..len
        invariant
            len == cs@.len(),
            cs@ == n.children@,
            lev(w@, n.word.text()) == e,
            forall|j: int, x: T|
                0 <= j < i && #[trigger] cs@[j].1.contents().contains(x) ==> lev(w@, x.text()) == e,
    {
        if !all_at_distance(&cs[i].1, w, e) {
            proof {
                let x = choose|x: T| #[trigger] cs@[i as int].1.contents().contains(x) && lev(w@, x.text()) != e;
                lemma_contents_of_contains(cs@, x);
                assert(n.contents().contains(x));
            }
            return false;
        }
    }
    proof {
        assert forall|x: T| #[trigger] n.contents().contains(x) implies lev(w@, x.text()) == e by {
            if x != n.word {
                lemma_contents_of_contains(cs@, x);
            }
        }
    }
    true
}

fn node_is_wf<T: Word>(n: &Node<T>) -> (r: bool)
    ensures
        r == n.wf(),
    decreases n,
{
    let cs = &n.children;
    let len = cs.len();
    for i in 0..len
        invariant
            len == cs@.len(),
            cs@ == n.children@,
            forall|a: int, b: int| 0 <= a < i && 0 <= b < len && a != b ==> cs@[a].0 != cs@[b].0,
    {
        for j in 0..len
            invariant
                len == cs@.len(),
                i < len,
                cs@ == n.children@,
                forall|a: int, b: int|
                    0 <= a < i && 0 <= b < len && a != b ==> cs@[a].0 != cs@[b].0,
                forall|b: int| 0 <= b < j && b != i ==> cs@[i as int].0 != cs@[b].0,
        {
            if j != i && cs[i].0 == cs[j].0 {
                return false;
            }
        }
    }
    for i in 0..len
        invariant
            len == cs@.len(),
            cs@ == n.children@,
            edges_unique(cs@),
            forall|j: int| 0 <= j < i ==> (#[trigger] cs@[j]).1.wf(),
            forall|j: int, x: T|
                0 <= j < i && #[trigger] cs@[j].1.contents().contains(x) ==> lev(
                    n.word.text(),
                    x.text(),
                ) == cs@[j].0,
    {
        if !node_is_wf(&cs[i].1) {
            return false;
        }
        if !all_at_distance(&cs[i].1, n.word.as_text(), cs[i].0) {
            return false;
        }
    }
    true
}

fn find_child<T>(cs: &Vec<(usize, Node<T>)>, k: usize) -> (r: Option<usize>)
    ensures
        match r {
            Some(p) => p < cs@.len() && cs@[p as int].0 == k,
            None => forall|i: int| 0 <= i < cs@.len() ==> cs@[i].0 != k,
        },
{
    let mut i: usize = 0;
    while i < cs.len()
        invariant
            i <= cs@.len(),
            forall|j: int| 0 <= j < i ==> cs@[j].0 != k,
        decreases cs@.len() - i,
    {
        if cs[i].0 == k {
            return Some(i);
        }
        i = i + 1;
    }
    None
}

fn insert_node<T: Word>(node: &mut Node<T>, val: T)
    requires
        old(node).wf(),
    ensures
        final(node).wf(),
        final(node).word == old(node).word,
        final(node).contents() == add_word(old(node).contents(), val),
    decreases old(node).contents().len(),
{
    let ghost m = node.contents();
    let ghost cs = node.children@;
    let k = levenshtein_distance(node.word.as_text(), val.as_text());
    proof {
        lemma_lev_zero(node.word.text(), val.text());
        assert(m.contains(node.word));
    }
    if k == 0 {
        return;
    }
    proof {
        assert forall|x: T| #[trigger] m.contains(x) && x.text() == val.text() implies exists|i: int|
            0 <= i < cs.len() && cs[i].0 == k && #[trigger] cs[i].1.contents().contains(x) by {
            if x != node.word {
                lemma_contents_of_contains(cs, x);
                let i = choose|i: int| 0 <= i < cs.len() && #[trigger] cs[i].1.contents().contains(x);
                assert(lev(node.word.text(), x.text()) == cs[i].0);
            }
        }
    }
    match find_child(&node.children, k) {
        None => {
            let leaf = Node { word: val, children: Vec::new() };
            proof {
                assert(leaf.children@ =~= Seq::<(usize, Node<T>)>::empty());
                assert(leaf.contents() =~= Multiset::singleton(val));
                assert(!has_text(m, val.text()));
            }
            node.children.push((k, leaf));
            proof {
                let ncs = node.children@;
                assert(ncs.drop_last() =~= cs);
                assert(node.contents() =~= m.insert(val));
                assert forall|i: int| 0 <= i < ncs.len() implies (#[trigger] ncs[i]).1.wf() by {
                    if i < cs.len() {
                        assert(ncs[i] == cs[i]);
                    }
                }
                assert forall|i: int, x: T|
                    0 <= i < ncs.len() && #[trigger] ncs[i].1.contents().contains(x) implies lev(
                    node.word.text(),
                    x.text(),
                ) == ncs[i].0 by {
                    if i < cs.len() {
                        assert(ncs[i] == cs[i]);
                    }
                }
            }
        },
        Some(p) => {
            let mut c = node.children.remove(p);
            proof {
                lemma_contents_of_len(cs, p as int);
            }
            insert_node(&mut c.1, val);
            let ghost e = c;
            node.children.insert(p, c);
            proof {
                let ncs = node.children@;
                assert(ncs =~= cs.update(p as int, e));
                let old_c = cs[p as int].1;
                if has_text(old_c.contents(), val.text()) {
                    assert(e.1.contents() =~= old_c.contents().add(Multiset::empty()));
                    lemma_contents_of_update(cs, p as int, e, Multiset::empty());
                    let x = choose|x: T| #[trigger] old_c.contents().contains(x) && x.text() == val.text();
                    lemma_contents_of_contains(cs, x);
                    assert(m.contains(x));
                    assert(node.contents() =~= m);
                } else {
                    assert(e.1.contents() =~= old_c.contents().add(Multiset::singleton(val)));
                    lemma_contents_of_update(cs, p as int, e, Multiset::singleton(val));
                    assert(!has_text(m, val.text()));
                    assert(node.contents() =~= m.insert(val));
                }
                assert forall|i: int| 0 <= i < ncs.len() implies (#[trigger] ncs[i]).1.wf() by {
                    if i != p {
                        assert(ncs[i] == cs[i]);
                    }
                }
                assert forall|i: int, x: T|
                    0 <= i < ncs.len() && #[trigger] ncs[i].1.contents().contains(x) implies lev(
                    node.word.text(),
                    x.text(),
                ) == ncs[i].0 by {
                    if i != p {
                        assert(ncs[i] == cs[i]);
                    } else if x != val {
                        assert(old_c.contents().contains(x));
                    }
                }
            }
        },
    }
}

/// The values of `m` that lie within `max_dist` of `q`.
pub open spec fn near<T: Word>(m: Multiset<T>, q: Seq<char>, max_dist: nat) -> Multiset<T> {
    m.filter(|x: T| lev(x.text(), q) <= max_dist)
}

/// The values named by the first components of `r`.
pub open spec fn found_values<T>(r: Seq<(&T, usize)>) -> Seq<T> {
    r.map_values(|p: (&T, usize)| *p.0)
}

/// The values held by the subtrees in a work queue.
pub open spec fn queue_contents<T>(qs: Seq<&Node<T>>) -> Multiset<T>
    decreases qs.len(),
{
    if qs.len() == 0 {
        Multiset::empty()
    } else {
        queue_contents(qs.drop_last()).add(qs.last().contents())
    }
}

proof fn lemma_queue_front<T>(qs: Seq<&Node<T>>)
    requires
        qs.len() > 0,
    ensures
        queue_contents(qs) == qs[0].contents().add(queue_contents(qs.subrange(1, qs.len() as int))),
    decreases qs.len(),
{
    let rest = qs.subrange(1, qs.len() as int);
    if qs.len() == 1 {
        assert(rest.len() == 0);
        assert(qs.drop_last().len() == 0);
        assert(qs.last() == qs[0]);
        assert(queue_contents(qs.drop_last()) == Multiset::<T>::empty());
        assert(queue_contents(rest) == Multiset::<T>::empty());
        assert(queue_contents(qs) =~= qs[0].contents().add(queue_contents(rest)));
    } else {
        lemma_queue_front(qs.drop_last());
        assert(qs.drop_last().subrange(1, qs.len() - 1) =~= rest.drop_last());
        assert(rest.last() == qs.last());
        assert(qs.drop_last()[0] == qs[0]);
        assert(queue_contents(qs) =~= qs[0].contents().add(queue_contents(rest)));
    }
}

proof fn lemma_filter_add<T>(a: Multiset<T>, b: Multiset<T>, f: spec_fn(T) -> bool)
    ensures
        a.add(b).filter(f) == a.filter(f).add(b.filter(f)),
{
    assert(a.add(b).filter(f) =~= a.filter(f).add(b.filter(f)));
}

fn abs_difference(x: usize, y: usize) -> (r: usize)
    ensures
        r == if x < y { y - x } else { x - y },
{
    if x < y {
        y - x
    } else {
        x - y
    }
}

/// A BK-tree over values read as strings, measured by edit distance.
pub struct BkTree<T: Word> {
    root: Option<Node<T>>,
}

impl<T: Word> BkTree<T> {
    /// The tree keeps the BK-tree shape.
    pub closed spec fn wf(&self) -> bool {
        match self.root {
            None => true,
            Some(r) => r.wf(),
        }
    }

    /// No node of the tree has two children under the same edge label.
    pub closed spec fn edges_unique_everywhere(&self) -> bool {
        match self.root {
            None => true,
            Some(r) => edges_unique_throughout(r),
        }
    }

    /// In a well-formed tree, and so in every tree that `new` and `insert` build,
    /// no node has two children under the same edge label.
    pub proof fn lemma_edges_unique(&self)
        requires
            self.wf(),
        ensures
            self.edges_unique_everywhere(),
    {
        match self.root {
            None => {},
            Some(r) => lemma_node_edges_unique(r),
        }
    }

    /// The values that the tree holds.
    pub closed spec fn contents(&self) -> Multiset<T> {
        match self.root {
            None => Multiset::empty(),
            Some(r) => r.contents(),
        }
    }

    /// An empty tree.
    pub fn new() -> (r: Self)
        ensures
            r.wf(),
            r.contents() == Multiset::<T>::empty(),
    {
        BkTree { root: None }
    }

    /// A tree holding `vals`, inserted in order.
    pub fn from_values(vals: Vec<T>) -> (r: Self)
        ensures
            r.wf(),
            r.contents() == add_words(Multiset::empty(), vals@),
    {
        let mut t = BkTree::new();
        t.insert_all(vals);
        t
    }

    /// Inserts `val`, unless a value with the same characters is already held.
    pub fn insert(&mut self, val: T)
        requires
            old(self).wf(),
        ensures
            final(self).wf(),
            final(self).contents() == add_word(old(self).contents(), val),
    {
        match self.root.take() {
            None => {
                let leaf = Node { word: val, children: Vec::new() };
                proof {
                    assert(leaf.children@ =~= Seq::<(usize, Node<T>)>::empty());
                    assert(leaf.contents() =~= Multiset::singleton(val));
                    assert(Multiset::<T>::empty().insert(val) =~= Multiset::singleton(val));
                }
                self.root = Some(leaf);
            },
            Some(r) => {
                let mut r = r;
                insert_node(&mut r, val);
                self.root = Some(r);
            },
        }
    }

    /// Inserts every value of `vals`, in order.
    pub fn insert_all(&mut self, vals: Vec<T>)
        requires
            old(self).wf(),
        ensures
            final(self).wf(),
            final(self).contents() == add_words(old(self).contents(), vals@),
    {
        let ghost start = self.contents();
        let n = vals.len();
        let mut rest = vals;
        let mut pending: Vec<T> = Vec::new();
        while rest.len() > 0
            invariant
                n == vals@.len(),
                rest@.len() + pending@.len() == n,
                rest@ == vals@.take(rest@.len() as int),
                forall|k: int| 0 <= k < pending@.len() ==> pending@[k] == vals@[n - 1 - k],
            decreases rest@.len(),
        {
            let v = rest.pop().unwrap();
            proof {
                assert(rest@ =~= vals@.take(rest@.len() as int));
            }
            pending.push(v);
        }
        while pending.len() > 0
            invariant
                n == vals@.len(),
                pending@.len() <= n,
                forall|k: int| 0 <= k < pending@.len() ==> pending@[k] == vals@[n - 1 - k],
                self.wf(),
                self.contents() == add_words(start, vals@.take(n - pending@.len())),
            decreases pending@.len(),
        {
            let v = pending.pop().unwrap();
            proof {
                let done = vals@.take(n - pending@.len());
                assert(done.drop_last() =~= vals@.take(n - pending@.len() - 1));
                assert(done.last() == v);
            }
            self.insert(v);
        }
        proof {
            assert(vals@.take(n as int) =~= vals@);
        }
    }

    /// Hands over the tree's nodes as plain data, for an outside serializer.
    pub fn into_root(self) -> (r: Option<Node<T>>)
        ensures
            r is None <==> self.contents().len() == 0,
            r matches Some(n) ==> n.contents() == self.contents(),
            r matches Some(n) ==> (self.wf() ==> n.wf()),
    {
        proof {
            if self.root is Some {
                assert(self.root->0.contents().contains(self.root->0.word));
            }
        }
        self.root
    }

    /// Rebuilds a tree from nodes as they were handed over, without inserting
    /// anything again. Nodes without the BK-tree shape are refused.
    pub fn from_root(root: Option<Node<T>>) -> (r: Option<Self>)
        ensures
            r is Some <==> (root matches Some(n) ==> n.wf()),
            r matches Some(t) ==> t.wf() && t.contents() == match root {
                Some(n) => n.contents(),
                None => Multiset::empty(),
            },
    {
        let ok = match &root {
            None => true,
            Some(n) => node_is_wf(n),
        };
        if ok {
            Some(BkTree { root })
        } else {
            None
        }
    }

    /// Turns the tree into an iterator over its values, in no particular order.
    pub fn into_iter(self) -> (r: IntoIter<T>)
        ensures
            r.remaining() == self.contents(),
    {
        let mut queue: Vec<Node<T>> = Vec::new();
        match self.root {
            None => {},
            Some(root) => {
                queue.push(root);
            },
        }
        let r = IntoIter { queue };
        proof {
            assert(r.queue@.len() == 0 ==> r.remaining() =~= self.contents());
            if r.queue@.len() > 0 {
                assert(r.queue@.drop_last() =~= Seq::<Node<T>>::empty());
                assert(stack_contents(r.queue@.drop_last()) == Multiset::<T>::empty());
                assert(r.remaining() =~= self.contents());
            }
        }
        r
    }

    /// An iterator over references to the tree's values, in no particular order.
    pub fn iter<'a>(&'a self) -> (r: Iter<'a, T>)
        ensures
            r.remaining() == self.contents(),
    {
        let mut queue: Vec<&'a Node<T>> = Vec::new();
        match &self.root {
            None => {},
            Some(root) => {
                queue.push(root);
            },
        }
        let r = Iter { queue };
        proof {
            assert(r.queue@.len() == 0 ==> r.remaining() =~= self.contents());
            if r.queue@.len() > 0 {
                assert(r.queue@.drop_last() =~= Seq::<&Node<T>>::empty());
                assert(queue_contents(r.queue@.drop_last()) == Multiset::<T>::empty());
                assert(r.remaining() =~= self.contents());
            }
        }
        r
    }

    /// Every held value within `max_dist` of `val`, each with its distance.
    pub fn find<'a>(&'a self, val: &T, max_dist: usize) -> (r: Vec<(&'a T, usize)>)
        requires
            self.wf(),
        ensures
            forall|i: int|
                0 <= i < r@.len() ==> r@[i].1 == lev(r@[i].0.text(), val.text()) && r@[i].1
                    <= max_dist,
            found_values(r@).to_multiset() == near(self.contents(), val.text(), max_dist as nat),
            self.contents().len() == 0 ==> r@.len() == 0,
            max_dist == 0 ==> forall|i: int| 0 <= i < r@.len() ==> r@[i].0.text() == val.text(),
    {
        let mut found: Vec<(&'a T, usize)> = Vec::new();
        let ghost q = val.text();
        let ghost f = |x: T| lev(x.text(), q) <= max_dist;
        let root = match &self.root {
            None => {
                proof {
                    assert(found_values(found@) =~= Seq::<T>::empty());
                    assert(near(self.contents(), q, max_dist as nat) =~= Multiset::empty());
                }
                proof {
                    assert(found@.len() == 0);
                }
                return found;
            },
            Some(root) => root,
        };
        let ghost target = root.contents().filter(f);
        let mut queue: VecDeque<&'a Node<T>> = VecDeque::new();
        queue.push_back(root);
        proof {
            assert(queue@.drop_last() =~= Seq::<&Node<T>>::empty());
            assert(queue_contents(queue@.drop_last()) == Multiset::<T>::empty());
            assert(queue@.last() == root);
            assert(found_values(found@) =~= Seq::<T>::empty());
            assert(found_values(found@).to_multiset().len() == 0);
            assert(found_values(found@).to_multiset() =~= Multiset::<T>::empty());
            assert(found_values(found@).to_multiset().add(queue_contents(queue@).filter(f)) =~= target);
        }
        loop
            invariant
                q == val.text(),
                f == (|x: T| lev(x.text(), q) <= max_dist),
                forall|j: int| 0 <= j < queue@.len() ==> (#[trigger] queue@[j]).wf(),
                forall|i: int| 0 <= i < found@.len() ==> found@[i].1 == lev(found@[i].0.text(), q),
                found_values(found@).to_multiset().add(queue_contents(queue@).filter(f)) == target,
            ensures
                forall|i: int| 0 <= i < found@.len() ==> found@[i].1 == lev(found@[i].0.text(), q),
                found_values(found@).to_multiset() == target,
            decreases queue_contents(queue@).len(),
        {
            let ghost qs = queue@;
            match queue.pop_front() {
                None => {
                    proof {
                        assert(queue_contents(queue@).filter(f) =~= Multiset::empty());
                        assert(found_values(found@).to_multiset() =~= target);
                    }
                    break;
                },
                Some(n) => {
                    proof {
                        lemma_queue_front(qs);
                    }
                    let ghost rest = queue@;
                    let ghost before = found@;
                    let d = levenshtein_distance(n.word.as_text(), val.as_text());
                    if d <= max_dist {
                        found.push((&n.word, d));
                    }
                    proof {
                        assert(found_values(before.push((&n.word, d))) =~= found_values(before).push(n.word));
                        assert(found_values(found@).to_multiset() =~= found_values(before).to_multiset().add(
                            Multiset::singleton(n.word).filter(f),
                        ));
                    }
                    let cs = &n.children;
                    let ghost cv = cs@;
                    assert(cv.subrange(0, 0) =~= Seq::<(usize, Node<T>)>::empty());
                    let len = cs.len();
                    for i in 0..len
                        invariant
                            len == cv.len(),
                            cv == n.children@,
                            q == val.text(),
                            f == (|x: T| lev(x.text(), q) <= max_dist),
                            cv == cs@,
                            n.wf(),
                            d == lev(n.word.text(), q),
                            forall|j: int| 0 <= j < queue@.len() ==> (#[trigger] queue@[j]).wf(),
                            queue_contents(queue@).filter(f) == queue_contents(rest).filter(f).add(
                                contents_of(cv.subrange(0, i as int)).filter(f),
                            ),
                            queue_contents(queue@).len() <= queue_contents(rest).len() + contents_of(
                                cv.subrange(0, i as int),
                            ).len(),
                    {
                        let ghost qi = queue@;
                        let e = cs[i].0;
                        proof {
                            assert(cv.subrange(0, i + 1).drop_last() =~= cv.subrange(0, i as int));
                            assert(cv.subrange(0, i + 1).last() == cv[i as int]);
                            assert(n.children@[i as int].1.wf());
                        }
                        if abs_difference(e, d) <= max_dist {
                            queue.push_back(&cs[i].1);
                            proof {
                                assert(queue@.drop_last() =~= qi);
                                assert(queue@.last() == cv[i as int].1);
                                assert(queue_contents(queue@) == queue_contents(qi).add(cv[i as int].1.contents()));
                                assert(contents_of(cv.subrange(0, i + 1)) == contents_of(cv.subrange(0, i as int)).add(cv[i as int].1.contents()));
                                lemma_filter_add(queue_contents(qi), cv[i as int].1.contents(), f);
                                lemma_filter_add(contents_of(cv.subrange(0, i as int)), cv[i as int].1.contents(), f);
                                assert(queue_contents(queue@).filter(f) =~= queue_contents(rest).filter(f).add(
                                    contents_of(cv.subrange(0, i + 1)).filter(f),
                                ));
                            }
                        } else {
                            proof {
                                let c = cv[i as int].1;
                                assert forall|x: T| c.contents().contains(x) implies !f(x) by {
                                    lemma_lev_reverse_triangle(n.word.text(), x.text(), q);
                                }
                                assert forall|v: T| c.contents().filter(f).count(v) == 0 by {
                                    if c.contents().contains(v) {
                                        assert(!f(v));
                                    }
                                }
                                assert(c.contents().filter(f) =~= Multiset::empty());
                                assert(queue_contents(queue@) == queue_contents(qi));
                                assert(contents_of(cv.subrange(0, i + 1)) == contents_of(cv.subrange(0, i as int)).add(c.contents()));
                                lemma_filter_add(contents_of(cv.subrange(0, i as int)), c.contents(), f);
                                assert(queue_contents(queue@).filter(f) =~= queue_contents(rest).filter(f).add(
                                    contents_of(cv.subrange(0, i + 1)).filter(f),
                                ));
                            }
                        }
                    }
                    proof {
                        assert(cv.subrange(0, cv.len() as int) =~= cv);
                        assert(found_values(found@).to_multiset().add(queue_contents(queue@).filter(f)) =~= target);
                    }
                },
            }
        }
        proof {
            assert(self.contents() == root.contents());
            assert(near(self.contents(), q, max_dist as nat) =~= target);
            assert forall|i: int| 0 <= i < found@.len() implies found@[i].1 <= max_dist by {
                let w = found_values(found@);
                assert(w[i] == *found@[i].0);
                assert(w.to_multiset().count(w[i]) > 0);
                assert(f(w[i]));
            }
            assert forall|i: int| max_dist == 0 && 0 <= i < found@.len() implies found@[i].0.text()
                == val.text() by {
                lemma_lev_zero(found@[i].0.text(), q);
            }
            if self.contents().len() == 0 {
                assert(target.len() == 0);
            }
        }
        found
    }
}

/// The values held by the subtrees in a stack of owned nodes.
pub open spec fn stack_contents<T>(qs: Seq<Node<T>>) -> Multiset<T>
    decreases qs.len(),
{
    if qs.len() == 0 {
        Multiset::empty()
    } else {
        stack_contents(qs.drop_last()).add(qs.last().contents())
    }
}

/// An iterator that hands out the values of a consumed tree.
pub struct IntoIter<T: Word> {
    queue: Vec<Node<T>>,
}

impl<T: Word> IntoIter<T> {
    /// The values not yet handed out.
    pub closed spec fn remaining(&self) -> Multiset<T> {
        stack_contents(self.queue@)
    }

    /// Hands out one value not handed out before, or `None` once all are out.
    pub fn next(&mut self) -> (r: Option<T>)
        ensures
            r is None <==> old(self).remaining().len() == 0,
            r is None ==> final(self).remaining() == old(self).remaining(),
            r matches Some(x) ==> old(self).remaining() == final(self).remaining().insert(x),
    {
        let ghost q0 = self.queue@;
        match self.queue.pop() {
            None => {
                proof {
                    assert(q0.len() == 0);
                }
                None
            },
            Some(node) => {
                proof {
                    assert(self.queue@ =~= q0.drop_last());
                    assert(stack_contents(q0) == stack_contents(q0.drop_last()).add(node.contents()));
                }
                let ghost base = stack_contents(self.queue@);
                let Node { word, children } = node;
                let mut children = children;
                let ghost ch0 = children@;
                while children.len() > 0
                    invariant
                        stack_contents(self.queue@).add(contents_of(children@)) == base.add(
                            contents_of(ch0),
                        ),
                    decreases children@.len(),
                {
                    let ghost chs = children@;
                    let ghost qs = self.queue@;
                    let (_, c) = children.pop().unwrap();
                    proof {
                        assert(children@ =~= chs.drop_last());
                    }
                    self.queue.push(c);
                    proof {
                        assert(self.queue@.drop_last() =~= qs);
                        assert(stack_contents(self.queue@).add(contents_of(children@)) =~= base.add(
                            contents_of(ch0),
                        ));
                    }
                }
                proof {
                    assert(contents_of(children@) =~= Multiset::empty());
                    assert(node.contents() == Multiset::singleton(word).add(contents_of(ch0)));
                    assert(old(self).remaining() == stack_contents(q0));
                    assert(self.remaining() =~= base.add(contents_of(ch0)));
                    assert(old(self).remaining() =~= self.remaining().insert(word));
                }
                Some(word)
            },
        }
    }
}

/// An iterator over references to the values of a tree.
pub struct Iter<'a, T: Word> {
    queue: Vec<&'a Node<T>>,
}

impl<'a, T: Word> Iter<'a, T> {
    /// The values not yet handed out.
    pub closed spec fn remaining(&self) -> Multiset<T> {
        queue_contents(self.queue@)
    }

    /// Hands out one value not handed out before, or `None` once all are out.
    pub fn next(&mut self) -> (r: Option<&'a T>)
        ensures
            r is None <==> old(self).remaining().len() == 0,
            r is None ==> final(self).remaining() == old(self).remaining(),
            r matches Some(x) ==> old(self).remaining() == final(self).remaining().insert(*x),
    {
        let ghost q0 = self.queue@;
        match self.queue.pop() {
            None => {
                proof {
                    assert(q0.len() == 0);
                }
                None
            },
            Some(node) => {
                proof {
                    assert(self.queue@ =~= q0.drop_last());
                    assert(queue_contents(q0) == queue_contents(q0.drop_last()).add(node.contents()));
                }
                let ghost base = queue_contents(self.queue@);
                let cs = &node.children;
                let ghost cv = cs@;
                let mut i: usize = cs.len();
                proof {
                    assert(cv.subrange(0, i as int) =~= cv);
                }
                while i > 0
                    invariant
                        i <= cv.len(),
                        cv == cs@,
                        queue_contents(self.queue@).add(contents_of(cv.subrange(0, i as int)))
                            == base.add(contents_of(cv)),
                    decreases i,
                {
                    let ghost qs = self.queue@;
                    i = i - 1;
                    self.queue.push(&cs[i].1);
                    proof {
                        assert(self.queue@.drop_last() =~= qs);
                        assert(cv.subrange(0, i + 1).drop_last() =~= cv.subrange(0, i as int));
                        assert(queue_contents(self.queue@).add(contents_of(cv.subrange(0, i as int)))
                            =~= base.add(contents_of(cv)));
                    }
                }
                proof {
                    assert(cv.subrange(0, 0) =~= Seq::<(usize, Node<T>)>::empty());
                    assert(contents_of(cv.subrange(0, 0)) == Multiset::<T>::empty());
                    assert(node.contents() == Multiset::singleton(node.word).add(contents_of(cv)));
                    assert(old(self).remaining() == queue_contents(q0));
                    assert(self.remaining() =~= base.add(contents_of(cv)));
                    assert(old(self).remaining() =~= self.remaining().insert(node.word));
                }
                Some(&node.word)
            },
        }
    }
}

} // verus!
