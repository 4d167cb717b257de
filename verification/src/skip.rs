//! The skip list: a probabilistically balanced ordered map.
//!
//! Nodes live in an arena (`nodes`); a `Some` slot is a live node, and slot
//! occupancy is what owns a node. The level-0 links form the *chain*: the
//! live nodes in ascending key order. Each node additionally carries one
//! forward link per level it participates in; the link at level `l` always
//! refers to the next node in chain order that participates in level `l`.
//! A ghost sequence `chain` names the arena indices in chain order; the
//! well-formedness predicate `wf` ties it to the concrete links.

use vstd::prelude::*;

use crate::order::KeyCmp;
use crate::order::OrderedKey;

verus! {

pub(crate) struct Node<K, V> {
    pub(crate) key: K,
    pub(crate) value: V,
    /// `forward[l]` is the arena index of the next node, in chain order,
    /// that participates in level `l`, or `None` if there is none.
    /// `forward[0]` is the successor in the chain itself.
    pub(crate) forward: Vec<Option<usize>>,
}

/// An ordered map from `K` to `V`, kept as a skip list.
pub struct SkipList<K, V> {
    /// The arena. A `Some` slot holds a live node.
    pub(crate) nodes: Vec<Option<Node<K, V>>>,
    /// The entry link per level: the first node participating in that level.
    pub(crate) head: Vec<Option<usize>>,
    /// Vacant arena slots, available for reuse by later insertions.
    pub(crate) free: Vec<usize>,
    /// The live arena indices, in ascending key order.
    pub(crate) chain: Ghost<Seq<int>>,
}

/// The pairs are in strictly ascending key order; in particular no two keys
/// are tied.
pub open spec fn sorted_pairs<K: OrderedKey, V>(s: Seq<(K, V)>) -> bool {
    forall|i: int, j: int| 0 <= i < j < s.len() ==> #[trigger] s[i].0.below(#[trigger] s[j].0)
}

/// The number of leading pairs whose key is below `k`: in a sorted sequence,
/// the position where `k` lives if present, and its insertion position if
/// not.
pub open spec fn seek<K: OrderedKey, V>(s: Seq<(K, V)>, k: K) -> int
    decreases s.len(),
{
    if s.len() == 0 {
        0
    } else if s[0].0.below(k) {
        1 + seek(s.subrange(1, s.len() as int), k)
    } else {
        0
    }
}

/// Whether a sorted sequence holds a key tied with `k`.
pub open spec fn has_key<K: OrderedKey, V>(s: Seq<(K, V)>, k: K) -> bool {
    seek(s, k) < s.len() && !k.below(s[seek(s, k)].0)
}

/// The value stored under the key tied with `k`, if any.
pub open spec fn spec_get<K: OrderedKey, V>(s: Seq<(K, V)>, k: K) -> Option<V> {
    if has_key(s, k) {
        Some(s[seek(s, k)].1)
    } else {
        None
    }
}

/// What insertion does to the contents: replace the tied entry, or splice
/// the pair in at its sorted position.
pub open spec fn model_insert<K: OrderedKey, V>(s: Seq<(K, V)>, k: K, v: V) -> Seq<(K, V)> {
    if has_key(s, k) {
        s.update(seek(s, k), (k, v))
    } else {
        s.insert(seek(s, k), (k, v))
    }
}

/// What removal does to the contents: drop the tied entry, or nothing.
pub open spec fn model_remove<K: OrderedKey, V>(s: Seq<(K, V)>, k: K) -> Seq<(K, V)> {
    if has_key(s, k) {
        s.remove(seek(s, k))
    } else {
        s
    }
}

/// `seek` indeed counts the leading run of keys below `k`.
pub proof fn lemma_seek_props<K: OrderedKey, V>(s: Seq<(K, V)>, k: K)
    ensures
        0 <= seek(s, k) <= s.len(),
        forall|i: int| 0 <= i < seek(s, k) ==> (#[trigger] s[i]).0.below(k),
        seek(s, k) < s.len() ==> !s[seek(s, k)].0.below(k),
    decreases s.len(),
{
    if s.len() > 0 && s[0].0.below(k) {
        let t = s.subrange(1, s.len() as int);
        lemma_seek_props(t, k);
        assert forall|i: int| 0 <= i < seek(s, k) implies (#[trigger] s[i]).0.below(k) by {
            if i > 0 {
                assert(t[i - 1] == s[i]);
            }
        }
        if seek(s, k) < s.len() {
            assert(t[seek(s, k) - 1] == s[seek(s, k)]);
        }
    }
}

/// In any sequence, a position bounding a leading run of keys below `k` and
/// itself not below `k` is exactly `seek`.
pub proof fn lemma_seek_is<K: OrderedKey, V>(s: Seq<(K, V)>, k: K, i: int)
    requires
        0 <= i <= s.len(),
        forall|j: int| 0 <= j < i ==> (#[trigger] s[j]).0.below(k),
        i < s.len() ==> !s[i].0.below(k),
    ensures
        seek(s, k) == i,
{
    lemma_seek_props(s, k);
    if seek(s, k) < i {
        assert(s[seek(s, k)].0.below(k));
    }
    if i < seek(s, k) {
        assert(s[i].0.below(k));
    }
}

impl<K: OrderedKey, V> SkipList<K, V> {
    // ----- the arena, seen through the ghost chain -----

    /// The arena size.
    pub(crate) open spec fn n(self) -> int {
        self.nodes@.len() as int
    }

    /// The chain: live arena indices in key order.
    pub(crate) open spec fn ch(self) -> Seq<int> {
        self.chain@
    }

    /// The number of live nodes.
    pub(crate) open spec fn clen(self) -> int {
        self.chain@.len() as int
    }

    /// The node at chain position `p`.
    pub(crate) open spec fn node_at(self, p: int) -> Node<K, V> {
        self.nodes@[self.ch()[p]]->0
    }

    pub(crate) open spec fn key_at(self, p: int) -> K {
        self.node_at(p).key
    }

    pub(crate) open spec fn val_at(self, p: int) -> V {
        self.node_at(p).value
    }

    /// The top level the node at position `p` participates in.
    pub(crate) open spec fn lvl(self, p: int) -> int {
        self.node_at(p).forward@.len() - 1
    }

    /// The level-`l` link leaving chain position `p`, with `p == -1` standing
    /// for the head of the list.
    pub(crate) open spec fn link(self, p: int, l: int) -> Option<usize> {
        if p == -1 {
            self.head@[l]
        } else {
            self.node_at(p).forward@[l]
        }
    }

    /// The positions and levels that carry a link.
    pub(crate) open spec fn link_dom(self, p: int, l: int) -> bool {
        (p == -1 && 0 <= l < self.head@.len()) || (0 <= p < self.clen() && 0 <= l <= self.lvl(p))
    }

    /// The first chain position after `p` that participates in level `l`,
    /// or `clen` if there is none.
    pub(crate) open spec fn next_above(self, p: int, l: int) -> int
        decreases self.clen() - p,
        when -1 <= p <= self.clen()
    {
        if p + 1 >= self.clen() {
            self.clen()
        } else if self.lvl(p + 1) >= l {
            p + 1
        } else {
            self.next_above(p + 1, l)
        }
    }

    /// The link at `(p, l)` goes to the first later node participating in
    /// level `l`.
    pub(crate) open spec fn link_ok(self, p: int, l: int) -> bool {
        if self.next_above(p, l) == self.clen() {
            self.link(p, l) is None
        } else {
            self.link(p, l) == Some(self.ch()[self.next_above(p, l)] as usize)
        }
    }

    /// The slot at chain position `p` is a live, in-bounds node whose level
    /// fits under the head.
    pub(crate) open spec fn node_ok(self, p: int) -> bool {
        &&& 0 <= self.ch()[p] < self.n()
        &&& self.nodes@[self.ch()[p]] is Some
        &&& 1 <= self.node_at(p).forward@.len() <= self.head@.len()
    }

    pub(crate) open spec fn free_entry_ok(self, j: int) -> bool {
        &&& 0 <= self.free@[j] < self.n()
        &&& self.nodes@[self.free@[j] as int] is None
    }

    // ----- the well-formedness invariant -----

    pub(crate) open spec fn wf_nodes(self) -> bool {
        forall|p: int| 0 <= p < self.clen() ==> #[trigger] self.node_ok(p)
    }

    pub(crate) open spec fn wf_distinct(self) -> bool {
        forall|p: int, q: int|
            0 <= p < q < self.clen() ==> #[trigger] self.ch()[p] != #[trigger] self.ch()[q]
    }

    /// Every occupied arena slot is on the chain: occupancy is ownership.
    pub(crate) open spec fn wf_occupied(self) -> bool {
        forall|i: int| 0 <= i < self.n() && #[trigger] self.nodes@[i] is Some ==> self.ch().contains(i)
    }

    pub(crate) open spec fn wf_sorted(self) -> bool {
        forall|p: int, q: int|
            0 <= p < q < self.clen() ==> (#[trigger] self.key_at(p)).below(#[trigger] self.key_at(q))
    }

    pub(crate) open spec fn wf_links(self) -> bool {
        forall|p: int, l: int| self.link_dom(p, l) ==> #[trigger] self.link_ok(p, l)
    }

    pub(crate) open spec fn wf_free(self) -> bool {
        &&& forall|j: int| 0 <= j < self.free@.len() ==> #[trigger] self.free_entry_ok(j)
        &&& forall|j: int, j2: int|
            0 <= j < j2 < self.free@.len() ==> self.free@[j] != self.free@[j2]
    }

    /// The internal invariant: the chain names exactly the live nodes in
    /// strictly ascending key order, every level link skips to the next node
    /// of that level, and the free list names exactly reusable slots.
    pub open(crate) spec fn wf(&self) -> bool {
        &&& self.wf_nodes()
        &&& self.wf_distinct()
        &&& self.wf_occupied()
        &&& self.wf_sorted()
        &&& self.wf_links()
        &&& self.wf_free()
    }

    /// The number of levels the list currently keeps.
    pub open(crate) spec fn spec_height(&self) -> nat {
        self.head@.len()
    }

    /// What the view is made of, stated for the sibling modules.
    pub(crate) proof fn lemma_view_def(&self)
        ensures
            self@ == Seq::new(self.ch().len(), |p: int| (self.key_at(p), self.val_at(p))),
            self@.len() == self.clen(),
    {
    }

    // ----- constructors and accessors -----

    /// An empty skip list.
    pub fn new() -> (l: SkipList<K, V>)
        ensures
            l.wf(),
            l@ == Seq::<(K, V)>::empty(),
            l.spec_height() == 0,
    {
        let l = SkipList { nodes: Vec::new(), head: Vec::new(), free: Vec::new(), chain: Ghost(Seq::empty()) };
        proof {
            assert(l@ =~= Seq::<(K, V)>::empty());
        }
        l
    }

    /// How many levels the list keeps; grows by at most one per insertion
    /// and never shrinks.
    pub fn height(&self) -> (h: usize)
        ensures
            h == self.spec_height(),
    {
        self.head.len()
    }
}

impl<K: OrderedKey, V> View for SkipList<K, V> {
    type V = Seq<(K, V)>;

    /// The contents in chain order: ascending keys with their values.
    closed spec fn view(&self) -> Seq<(K, V)> {
        Seq::new(self.chain@.len(), |p: int| (self.key_at(p), self.val_at(p)))
    }
}


impl<K: OrderedKey, V> SkipList<K, V> {
    /// `next_above(p, l)` is a later position, participates in level `l` if
    /// it is a real position, and nothing strictly between participates.
    pub(crate) proof fn lemma_next_above_props(self, p: int, l: int)
        requires
            -1 <= p < self.clen() || (p == -1 && self.clen() == 0),
        ensures
            p < self.next_above(p, l) <= self.clen(),
            self.next_above(p, l) < self.clen() ==> self.lvl(self.next_above(p, l)) >= l,
            forall|r: int| p < r < self.next_above(p, l) ==> #[trigger] self.lvl(r) < l,
        decreases self.clen() - p,
    {
        if p + 1 >= self.clen() {
        } else if self.lvl(p + 1) >= l {
        } else {
            self.lemma_next_above_props(p + 1, l);
        }
    }

    /// A position that bounds a level-`l`-free gap after `p` and itself
    /// participates in level `l` (or is the end) is exactly `next_above`.
    pub(crate) proof fn lemma_next_above_is(self, p: int, l: int, q: int)
        requires
            -1 <= p < q <= self.clen(),
            q < self.clen() ==> self.lvl(q) >= l,
            forall|r: int| p < r < q ==> #[trigger] self.lvl(r) < l,
        ensures
            self.next_above(p, l) == q,
    {
        self.lemma_next_above_props(p, l);
        let q0 = self.next_above(p, l);
        if q0 < q {
            assert(self.lvl(q0) < l);
        }
        if q < q0 {
            assert(self.lvl(q) < l);
        }
    }

    /// What the search records at one level: `p` (with its arena index `pd`)
    /// is the last chain position participating in level `l` whose key is
    /// below `k`, or the head if there is none.
    pub(crate) open spec fn pred_ok(self, k: K, l: int, p: int, pd: Option<usize>) -> bool {
        &&& -1 <= p < self.clen()
        &&& (p == -1 <==> pd is None)
        &&& (p >= 0 ==> pd == Some(self.ch()[p] as usize) && self.lvl(p) >= l && self.key_at(
            p,
        ).below(k))
        &&& forall|q: int|
            p < q < self.clen() && #[trigger] self.lvl(q) >= l ==> !self.key_at(q).below(k)
    }

    /// Top-down level-skipping search: for every level, the last node of that
    /// level whose key is below `key` (the per-level predecessors of `key`).
    pub(crate) fn search_preds(&self, key: &K) -> (r: (Vec<Option<usize>>, Ghost<Seq<int>>))
        requires
            self.wf(),
        ensures
            r.0@.len() == self.spec_height(),
            r.1@.len() == self.spec_height(),
            forall|l: int|
                0 <= l < self.spec_height() ==> self.pred_ok(*key, l, r.1@[l], r.0@[l]),
    {
        let height = self.head.len();
        let mut preds: Vec<Option<usize>> = Vec::with_capacity(height);
        let mut i: usize = 0;
        while i < height
            invariant
                i <= height,
                preds@.len() == i,
                forall|m: int| 0 <= m < i ==> preds@[m] is None,
            decreases height - i,
        {
            preds.push(None);
            i += 1;
        }
        let ghost mut pos: Seq<int> = Seq::new(height as nat, |l: int| -1);

        let mut cur: Option<usize> = None;
        let ghost mut cp: int = -1;
        let mut l = height;
        while l > 0
            invariant
                self.wf(),
                l <= height,
                height == self.spec_height(),
                preds@.len() == height,
                pos.len() == height,
                -1 <= cp < self.clen(),
                cp == -1 <==> cur is None,
                cp >= 0 ==> cur == Some(self.ch()[cp] as usize) && self.lvl(cp) >= l
                    && self.key_at(cp).below(*key),
                forall|m: int| l <= m < height ==> self.pred_ok(*key, m, pos[m], preds@[m]),
            decreases l,
        {
            l -= 1;
            loop
                invariant
                    self.wf(),
                    l < height == self.spec_height(),
                    -1 <= cp < self.clen(),
                    cp == -1 <==> cur is None,
                    cp >= 0 ==> cur == Some(self.ch()[cp] as usize) && self.lvl(cp) >= l
                        && self.key_at(cp).below(*key),
                ensures
                    -1 <= cp < self.clen(),
                    cp == -1 <==> cur is None,
                    cp >= 0 ==> cur == Some(self.ch()[cp] as usize) && self.lvl(cp) >= l
                        && self.key_at(cp).below(*key),
                    forall|q: int|
                        cp < q < self.clen() && #[trigger] self.lvl(q) >= l ==> !self.key_at(
                            q,
                        ).below(*key),
                decreases self.clen() - cp,
            {
                proof {
                    assert(self.link_dom(cp, l as int));
                    assert(self.link_ok(cp, l as int));
                    self.lemma_next_above_props(cp, l as int);
                }
                let nxt: Option<usize> = match cur {
                    None => self.head[l],
                    Some(c) => {
                        proof {
                            assert(self.node_ok(cp));
                            assert(self.nodes@.len() == self.nodes.len());
                            assert(c as int == self.ch()[cp]);
                        }
                        self.nodes[c].as_ref().unwrap().forward[l]
                    },
                };
                proof {
                    assert(nxt == self.link(cp, l as int));
                }
                let ghost qn = self.next_above(cp, l as int);
                match nxt {
                    None => {
                        break ;
                    },
                    Some(j) => {
                        proof {
                            assert(qn < self.clen());
                            assert(self.node_ok(qn));
                            assert(self.nodes@.len() == self.nodes.len());
                            assert(j as int == self.ch()[qn]);
                        }
                        let cres = self.nodes[j].as_ref().unwrap().key.key_cmp(key);
                        match cres {
                            KeyCmp::Below => {
                                cur = nxt;
                                proof {
                                    cp = qn;
                                }
                            },
                            _ => {
                                proof {
                                    if cres == KeyCmp::Above {
                                        K::lemma_asymmetry(*key, self.key_at(qn));
                                    }
                                    assert(!self.key_at(qn).below(*key));
                                    // the next level-l node is not below the
                                    // target, so no later level-l node is
                                    assert forall|q: int|
                                        cp < q < self.clen() && #[trigger] self.lvl(q) >= l
                                            implies !self.key_at(q).below(*key) by {
                                        if q < qn {
                                            assert(self.lvl(q) < l);
                                        } else if q > qn {
                                            if self.key_at(q).below(*key) {
                                                assert(self.key_at(qn).below(self.key_at(q)));
                                                K::lemma_transitivity(
                                                    self.key_at(qn),
                                                    self.key_at(q),
                                                    *key,
                                                );
                                            }
                                        }
                                    }
                                }
                                break ;
                            },
                        }
                    },
                }
            }
            preds[l] = cur;
            proof {
                pos = pos.update(l as int, cp);
            }
        }
        (preds, Ghost(pos))
    }
}


impl<K: OrderedKey, V> SkipList<K, V> {
    /// A list of height zero holds nothing.
    pub(crate) proof fn lemma_height_zero(self)
        requires
            self.wf(),
            self.spec_height() == 0,
        ensures
            self.clen() == 0,
            self@ == Seq::<(K, V)>::empty(),
    {
        if self.clen() > 0 {
            assert(self.node_ok(0));
        }
        assert(self@ =~= Seq::<(K, V)>::empty());
    }

    /// The level-0 predecessor of `k` sits right before `seek`: everything up
    /// to it is below `k`, nothing after it is.
    pub(crate) proof fn lemma_pred0_seek(self, k: K, p: int, pd: Option<usize>)
        requires
            self.wf(),
            self.pred_ok(k, 0, p, pd),
        ensures
            seek(self@, k) == p + 1,
            self@.len() == self.clen(),
    {
        assert forall|j: int| 0 <= j < p + 1 implies (#[trigger] self@[j]).0.below(k) by {
            assert(self@[j].0 == self.key_at(j));
            if j < p {
                assert(self.key_at(j).below(self.key_at(p)));
                K::lemma_transitivity(self.key_at(j), self.key_at(p), k);
            }
        }
        if p + 1 < self.clen() {
            assert(self.node_ok(p + 1));
            assert(self.lvl(p + 1) >= 0);
            assert(!self.key_at(p + 1).below(k));
            assert(self@[p + 1].0 == self.key_at(p + 1));
        }
        lemma_seek_is(self@, k, p + 1);
    }

    /// Follow the level-`l` link leaving the position `p` (whose arena index
    /// is `pd`, or the head for `None`).
    pub(crate) fn link_at(&self, pd: Option<usize>, Ghost(p): Ghost<int>, l: usize) -> (r: Option<
        usize,
    >)
        requires
            self.wf(),
            self.link_dom(p, l as int),
            p == -1 <==> pd is None,
            p >= 0 ==> pd == Some(self.ch()[p] as usize),
        ensures
            r == self.link(p, l as int),
    {
        match pd {
            None => self.head[l],
            Some(c) => {
                proof {
                    assert(self.node_ok(p));
                    assert(self.nodes@.len() == self.nodes.len());
                    assert(c as int == self.ch()[p]);
                }
                self.nodes[c].as_ref().unwrap().forward[l]
            },
        }
    }

    /// Borrow the node at chain position `q`, whose arena index is `i`.
    pub(crate) fn node_ref(&self, i: usize, Ghost(q): Ghost<int>) -> (r: &Node<K, V>)
        requires
            self.wf(),
            0 <= q < self.clen(),
            self.ch()[q] == i as int,
        ensures
            *r == self.node_at(q),
    {
        proof {
            assert(self.node_ok(q));
            assert(self.nodes@.len() == self.nodes.len());
        }
        self.nodes[i].as_ref().unwrap()
    }

    /// Look the key up; `None` when no stored key is tied with it.
    pub fn get(&self, key: &K) -> (r: Option<&V>)
        requires
            self.wf(),
        ensures
            match r {
                Some(v) => spec_get(self@, *key) == Some(*v),
                None => spec_get(self@, *key) is None,
            },
    {
        if self.head.len() == 0 {
            proof {
                self.lemma_height_zero();
            }
            return None;
        }
        let (preds, gpos) = self.search_preds(key);
        let pd = preds[0];
        let ghost p0 = gpos@[0];
        proof {
            assert(self.pred_ok(*key, 0, p0, pd));
            self.lemma_pred0_seek(*key, p0, pd);
        }
        let cand = self.link_at(pd, Ghost(p0), 0);
        proof {
            self.lemma_next_above_props(p0, 0);
            assert(self.link_ok(p0, 0));
        }
        match cand {
            None => {
                proof {
                    assert(self.next_above(p0, 0) == self.clen());
                    if p0 + 1 < self.clen() {
                        assert(self.node_ok(p0 + 1));
                        self.lemma_next_above_is(p0, 0, p0 + 1);
                    }
                    assert(seek(self@, *key) == self@.len());
                }
                None
            },
            Some(c) => {
                let ghost qc = self.next_above(p0, 0);
                proof {
                    assert(qc < self.clen());
                    assert(self.node_ok(p0 + 1));
                    self.lemma_next_above_is(p0, 0, p0 + 1);
                    assert(qc == p0 + 1);
                    assert(self.node_ok(qc));
                    assert(self.nodes@.len() == self.nodes.len());
                    assert(c as int == self.ch()[qc]);
                }
                let node = self.node_ref(c, Ghost(qc));
                let cres = node.key.key_cmp(key);
                match cres {
                    KeyCmp::Tied => Some(&node.value),
                    _ => {
                        proof {
                            assert(!self.key_at(qc).below(*key));
                            if cres == KeyCmp::Above {
                                assert((*key).below(self.key_at(qc)));
                            }
                            assert(!has_key(self@, *key));
                        }
                        None
                    },
                }
            },
        }
    }
}


impl<K: OrderedKey, V> SkipList<K, V> {
    /// `next_above` depends only on the chain length and the levels.
    pub(crate) proof fn lemma_next_above_same(pre: Self, post: Self, p: int, l: int)
        requires
            pre.clen() == post.clen(),
            forall|r: int| 0 <= r < pre.clen() ==> #[trigger] pre.lvl(r) == post.lvl(r),
            -1 <= p <= pre.clen(),
        ensures
            pre.next_above(p, l) == post.next_above(p, l),
        decreases pre.clen() - p,
    {
        if p + 1 >= pre.clen() {
        } else if pre.lvl(p + 1) >= l {
        } else {
            Self::lemma_next_above_same(pre, post, p + 1, l);
        }
    }

    /// `post` is `pre` with only the value in the node at chain position `q`
    /// replaced.
    pub(crate) open spec fn values_patched(pre: Self, post: Self, q: int) -> bool {
        &&& post.head@ == pre.head@
        &&& post.free@ == pre.free@
        &&& post.chain@ == pre.chain@
        &&& post.nodes@.len() == pre.nodes@.len()
        &&& forall|i: int|
            0 <= i < pre.nodes@.len() && i != pre.ch()[q] ==> post.nodes@[i] == #[trigger] pre.nodes@[i]
        &&& post.nodes@[pre.ch()[q]] is Some
        &&& post.node_at(q).key == pre.node_at(q).key
        &&& post.node_at(q).forward@ == pre.node_at(q).forward@
    }

    /// Replacing one value keeps the list well formed and updates the view
    /// pointwise.
    pub(crate) proof fn lemma_value_update_wf(pre: Self, q: int)
        requires
            pre.wf(),
            0 <= q < pre.clen(),
        ensures
            forall|post: Self|
                #![trigger Self::values_patched(pre, post, q)]
                #![trigger post.wf(), pre.wf()]
                Self::values_patched(pre, post, q) ==> post.wf() && post@ == pre@.update(
                    q,
                    (pre.key_at(q), post.val_at(q)),
                ) && post.spec_height() == pre.spec_height(),
    {
        assert(pre.node_ok(q));
        assert forall|post: Self| #[trigger] Self::values_patched(pre, post, q) implies post.wf()
            && post@ == pre@.update(q, (pre.key_at(q), post.val_at(q))) && post.spec_height()
            == pre.spec_height() by {
            assert forall|p: int|
                #![trigger post.lvl(p)]
                #![trigger post.key_at(p)]
                0 <= p < pre.clen() implies post.key_at(p) == pre.key_at(p) && post.lvl(p)
                == pre.lvl(p) && post.node_at(p).forward@ == pre.node_at(p).forward@
                && post.node_ok(p) by {
                assert(pre.node_ok(p));
                if p != q {
                    if p < q {
                        assert(pre.ch()[p] != pre.ch()[q]);
                    } else {
                        assert(pre.ch()[q] != pre.ch()[p]);
                    }
                    assert(post.nodes@[pre.ch()[p]] == pre.nodes@[pre.ch()[p]]);
                }
            }
            assert forall|p: int, l: int| post.link_dom(p, l) implies #[trigger] post.link_ok(
                p,
                l,
            ) by {
                assert(pre.link_dom(p, l));
                assert(pre.link_ok(p, l));
                Self::lemma_next_above_same(pre, post, p, l);
                assert(post.link(p, l) == pre.link(p, l));
            }
            assert forall|i: int| 0 <= i < post.n() && #[trigger] post.nodes@[i] is Some implies
                post.ch().contains(i) by {
                if i != pre.ch()[q] {
                    assert(pre.nodes@[i] is Some);
                } else {
                    assert(pre.ch()[q] == pre.ch()[q]);
                    assert(pre.ch().contains(pre.ch()[q]));
                }
            }
            assert forall|j: int| 0 <= j < post.free@.len() implies #[trigger] post.free_entry_ok(
                j,
            ) by {
                assert(pre.free_entry_ok(j));
                assert(pre.free@[j] != pre.ch()[q]);
            }
            assert forall|p: int| 0 <= p < post.clen() implies #[trigger] post.node_ok(p) by {
                assert(post.lvl(p) == pre.lvl(p));
            }
            assert forall|p: int, p2: int| 0 <= p < p2 < post.clen() implies (
            #[trigger] post.key_at(p)).below(#[trigger] post.key_at(p2)) by {
                assert(post.lvl(p) == pre.lvl(p));
                assert(post.lvl(p2) == pre.lvl(p2));
                assert(pre.key_at(p).below(pre.key_at(p2)));
            }
            assert(post.wf_nodes());
            assert(post.wf_sorted());
            assert forall|p: int| 0 <= p < post.clen() && p != q implies #[trigger] post.val_at(p)
                == pre.val_at(p) by {
                assert(pre.node_ok(p));
                if p < q {
                    assert(pre.ch()[p] != pre.ch()[q]);
                } else {
                    assert(pre.ch()[q] != pre.ch()[p]);
                }
                assert(post.nodes@[pre.ch()[p]] == pre.nodes@[pre.ch()[p]]);
            }
            assert(post@ =~= pre@.update(q, (pre.key_at(q), post.val_at(q))));
        }
    }

    /// Mutably borrow the value of the node at chain position `q` (arena
    /// index `c`). Whatever the caller writes through the borrow becomes that
    /// node's value; keys and structure stay as they are.
    pub(crate) fn value_mut_raw(&mut self, c: usize, Ghost(q): Ghost<int>) -> (v: &mut V)
        requires
            old(self).wf(),
            0 <= q < old(self).clen(),
            old(self).ch()[q] == c as int,
        ensures
            Self::values_patched(*old(self), *final(self), q),
            *v == old(self).val_at(q),
            *final(v) == final(self).val_at(q),
    {
        proof {
            assert(self.node_ok(q));
            assert(self.nodes@.len() == self.nodes.len());
        }
        let slot = &mut self.nodes[c];
        let nd = slot.as_mut().unwrap();
        &mut nd.value
    }

    /// Mutably borrow the value of the node at chain position `q` (arena
    /// index `c`). Whatever the caller writes through the borrow becomes that
    /// node's value; keys and structure stay as they are.
    pub(crate) fn value_mut(&mut self, c: usize, Ghost(q): Ghost<int>) -> (v: &mut V)
        requires
            old(self).wf(),
            0 <= q < old(self).clen(),
            old(self).ch()[q] == c as int,
        ensures
            *v == old(self).val_at(q),
            *final(v) == final(self).val_at(q),
            final(self).wf(),
            final(self)@ == old(self)@.update(q, (old(self).key_at(q), *final(v))),
            final(self).spec_height() == old(self).spec_height(),
    {
        proof {
            Self::lemma_value_update_wf(*self, q);
        }
        self.value_mut_raw(c, Ghost(q))
    }

    /// Look the key up and return a mutable borrow of its value, or `None`
    /// when no stored key is tied with it.
    pub fn get_mut(&mut self, key: &K) -> (r: Option<&mut V>)
        requires
            old(self).wf(),
        ensures
            final(self).wf(),
            final(self).spec_height() == old(self).spec_height(),
            r is Some <==> has_key(old(self)@, *key),
            r is None ==> *final(self) == *old(self) && spec_get(old(self)@, *key) is None,
            r is Some ==> ({
                let i = seek(old(self)@, *key);
                &&& *r.unwrap() == old(self)@[i].1
                &&& final(self)@ == old(self)@.update(i, (old(self)@[i].0, *final(r.unwrap())))
            }),
    {
        if self.head.len() == 0 {
            proof {
                self.lemma_height_zero();
            }
            return None;
        }
        let (preds, gpos) = self.search_preds(key);
        let pd = preds[0];
        let ghost p0 = gpos@[0];
        proof {
            assert(self.pred_ok(*key, 0, p0, pd));
            self.lemma_pred0_seek(*key, p0, pd);
            assert(self.link_ok(p0, 0));
            self.lemma_next_above_props(p0, 0);
        }
        let cand = self.link_at(pd, Ghost(p0), 0);
        match cand {
            None => {
                proof {
                    assert(self.next_above(p0, 0) == self.clen());
                    if p0 + 1 < self.clen() {
                        assert(self.node_ok(p0 + 1));
                        self.lemma_next_above_is(p0, 0, p0 + 1);
                    }
                    assert(seek(self@, *key) == self@.len());
                }
                None
            },
            Some(c) => {
                let ghost qc = self.next_above(p0, 0);
                proof {
                    assert(qc < self.clen());
                    assert(self.node_ok(p0 + 1));
                    self.lemma_next_above_is(p0, 0, p0 + 1);
                    assert(qc == p0 + 1);
                    assert(self.node_ok(qc));
                    assert(self.nodes@.len() == self.nodes.len());
                    assert(c as int == self.ch()[qc]);
                }
                let cres = {
                    let node = self.node_ref(c, Ghost(qc));
                    node.key.key_cmp(key)
                };
                match cres {
                    KeyCmp::Tied => {
                        let v = self.value_mut(c, Ghost(qc));
                        Some(v)
                    },
                    _ => {
                        proof {
                            assert(!self.key_at(qc).below(*key));
                            if cres == KeyCmp::Above {
                                assert((*key).below(self.key_at(qc)));
                            }
                            assert(!has_key(self@, *key));
                        }
                        None
                    },
                }
            },
        }
    }
}


impl<K: OrderedKey, V> SkipList<K, V> {
    /// The arena index recorded for a predecessor position.
    pub(crate) open spec fn pred_of(self, p: int) -> Option<usize> {
        if p == -1 {
            None
        } else {
            Some(self.ch()[p] as usize)
        }
    }

    /// `cur` has the same slots as `pre`, with the same keys, values and
    /// level counts; only link targets may differ.
    pub(crate) open spec fn same_shape_at(pre: Self, cur: Self, i: int) -> bool {
        &&& (cur.nodes@[i] is Some <==> pre.nodes@[i] is Some)
        &&& (pre.nodes@[i] is Some ==> cur.nodes@[i]->0.key == pre.nodes@[i]->0.key
            && cur.nodes@[i]->0.value == pre.nodes@[i]->0.value
            && cur.nodes@[i]->0.forward@.len() == pre.nodes@[i]->0.forward@.len())
    }

}


impl<K: OrderedKey, V> SkipList<K, V> {
    /// Unlinking the node at chain position `pc` from every level it
    /// participates in (`s1`), then vacating its slot and shrinking the chain
    /// (`post`), keeps the list well formed and removes exactly its pair from
    /// the view.
    pub(crate) proof fn lemma_remove_rewire(pre: Self, s1: Self, post: Self, k: K, pos: Seq<int>, pc: int)
        requires
            pre.wf(),
            pos.len() == pre.head@.len(),
            forall|m: int| 0 <= m < pos.len() ==> pre.pred_ok(k, m, pos[m], pre.pred_of(pos[m])),
            0 <= pc < pre.clen(),
            !pre.key_at(pc).below(k) && !k.below(pre.key_at(pc)),
            s1.head@.len() == pre.head@.len(),
            s1.chain@ == pre.chain@,
            s1.nodes@.len() == pre.nodes@.len(),
            forall|i: int| 0 <= i < pre.nodes@.len() ==> #[trigger] Self::same_shape_at(pre, s1, i),
            forall|p: int, m: int|
                pre.link_dom(p, m) ==> #[trigger] s1.link(p, m) == (if m <= pre.lvl(pc) && p
                    == pos[m] {
                    pre.link(pc, m)
                } else {
                    pre.link(p, m)
                }),
            post.nodes@ == s1.nodes@.update(pre.ch()[pc], None),
            post.head@ == s1.head@,
            post.free@ == pre.free@.push(pre.ch()[pc] as usize),
            post.chain@ == pre.ch().remove(pc),
        ensures
            post.wf(),
            post@ == pre@.remove(pc),
            post.spec_height() == pre.spec_height(),
    {
        let c = pre.ch()[pc];
        let cl = pre.lvl(pc);
        assert(pre.node_ok(pc));

        // every predecessor position sits before `pc`
        assert forall|m: int| 0 <= m < pos.len() implies -1 <= #[trigger] pos[m] < pc by {
            assert(pre.pred_ok(k, m, pos[m], pre.pred_of(pos[m])));
            if pos[m] >= pc {
                if pos[m] > pc {
                    assert(pre.key_at(pc).below(pre.key_at(pos[m])));
                    K::lemma_transitivity(pre.key_at(pc), pre.key_at(pos[m]), k);
                }
            }
        }

        // pointwise shape of the surviving positions
        assert(pre.nodes.len() == pre.nodes@.len());
        assert forall|p2: int|
            #![trigger post.lvl(p2)]
            #![trigger post.key_at(p2)]
            #![trigger post.node_ok(p2)]
            0 <= p2 < post.clen() implies ({
            let p = if p2 < pc { p2 } else { p2 + 1 };
            &&& post.ch()[p2] == pre.ch()[p]
            &&& post.key_at(p2) == pre.key_at(p)
            &&& post.val_at(p2) == pre.val_at(p)
            &&& post.lvl(p2) == pre.lvl(p)
            &&& post.node_at(p2) == s1.node_at(p)
            &&& post.node_ok(p2)
        }) by {
            let p = if p2 < pc { p2 } else { p2 + 1 };
            assert(post.ch()[p2] == pre.ch()[p]);
            assert(pre.node_ok(p));
            assert(Self::same_shape_at(pre, s1, pre.ch()[p]));
            if p < pc {
                assert(pre.ch()[p] != pre.ch()[pc]);
            } else {
                assert(pre.ch()[pc] != pre.ch()[p]);
            }
            assert(post.nodes@[pre.ch()[p]] == s1.nodes@[pre.ch()[p]]);
        }

        assert(post.wf_nodes());
        assert forall|p2: int, q2: int| 0 <= p2 < q2 < post.clen() implies (
        #[trigger] post.key_at(p2)).below(#[trigger] post.key_at(q2)) by {
            let p = if p2 < pc { p2 } else { p2 + 1 };
            let q = if q2 < pc { q2 } else { q2 + 1 };
            assert(pre.key_at(p).below(pre.key_at(q)));
        }
        assert(post.wf_sorted());
        assert forall|p2: int, q2: int| 0 <= p2 < q2 < post.clen() implies #[trigger] post.ch()[p2]
            != #[trigger] post.ch()[q2] by {
            let p = if p2 < pc { p2 } else { p2 + 1 };
            let q = if q2 < pc { q2 } else { q2 + 1 };
            assert(pre.ch()[p] != pre.ch()[q]);
        }
        assert(post.wf_distinct());

        // occupancy: the freed slot is off the chain, everything else keeps
        // its position, shifted down past `pc`
        assert forall|i: int| 0 <= i < post.n() && #[trigger] post.nodes@[i] is Some implies
            post.ch().contains(i) by {
            assert(i != c);
            assert(Self::same_shape_at(pre, s1, i));
            assert(pre.nodes@[i] is Some);
            let q = choose|q: int| 0 <= q < pre.clen() && pre.ch()[q] == i;
            assert(pre.ch().contains(i));
            assert(exists|q: int| 0 <= q < pre.clen() && #[trigger] pre.ch()[q] == i) by {
                let q0 = pre.ch().index_of(i);
                assert(pre.ch()[q0] == i);
            }
            let q1 = choose|q: int| 0 <= q < pre.clen() && #[trigger] pre.ch()[q] == i;
            assert(q1 != pc);
            let q2 = if q1 < pc { q1 } else { q1 - 1 };
            assert(post.ch()[q2] == i);
        }

        // the free list: the freed slot joins, all entries stay vacant
        assert forall|j: int| 0 <= j < post.free@.len() implies #[trigger] post.free_entry_ok(
            j,
        ) by {
            if j < pre.free@.len() {
                assert(pre.free_entry_ok(j));
                assert(pre.free@[j] != c);
                assert(Self::same_shape_at(pre, s1, pre.free@[j] as int));
            } else {
                assert(post.free@[j] == c as usize);
            }
        }
        assert forall|j: int, j2: int| 0 <= j < j2 < post.free@.len() implies post.free@[j]
            != post.free@[j2] by {
            if j2 < pre.free@.len() {
                assert(pre.free@[j] != pre.free@[j2]);
            } else {
                assert(pre.free_entry_ok(j));
                assert(pre.free@[j] != c);
            }
        }

        // the links
        assert forall|p2: int, m: int| post.link_dom(p2, m) implies #[trigger] post.link_ok(
            p2,
            m,
        ) by {
            let p = if p2 == -1 {
                -1
            } else if p2 < pc {
                p2
            } else {
                p2 + 1
            };
            assert(pre.link_dom(p, m)) by {
                if p2 >= 0 {
                    assert(post.lvl(p2) == pre.lvl(p));
                }
            }
            assert(s1.link(p, m) == (if m <= cl && p == pos[m] {
                pre.link(pc, m)
            } else {
                pre.link(p, m)
            }));
            assert(post.link(p2, m) == s1.link(p, m)) by {
                if p2 >= 0 {
                    assert(post.node_at(p2) == s1.node_at(p));
                }
            }
            assert(pre.link_ok(p, m));
            assert(pre.link_ok(pc, m) || m > cl);
            let rerouted = m <= cl && p == pos[m];
            let t = if rerouted {
                pre.next_above(pc, m)
            } else {
                pre.next_above(p, m)
            };
            if rerouted {
                pre.lemma_next_above_props(pc, m);
                assert(pre.pred_ok(k, m, pos[m], pre.pred_of(pos[m])));
                // the gap between the predecessor and `pc` is clear at level m
                assert forall|r: int| p < r < pc implies #[trigger] pre.lvl(r) < m by {
                    assert(pre.key_at(r).below(pre.key_at(pc)));
                    crate::order::lemma_below_tied(pre.key_at(r), pre.key_at(pc), k);
                    if pre.lvl(r) >= m {
                        assert(!pre.key_at(r).below(k));
                    }
                }
                assert(t > pc);
            } else {
                pre.lemma_next_above_props(p, m);
                // the old target is not `pc`: only a predecessor links there
                if t == pc {
                    assert(pre.link(p, m) == Some(pre.ch()[pc] as usize));
                    assert(m <= cl);
                    assert(pre.pred_ok(k, m, pos[m], pre.pred_of(pos[m])));
                    if p > pos[m] {
                        assert(p >= 0);
                        assert(pre.lvl(p) >= m);
                        assert(!pre.key_at(p).below(k));
                        assert(pre.key_at(p).below(pre.key_at(pc)));
                        crate::order::lemma_below_tied(pre.key_at(p), pre.key_at(pc), k);
                        assert(false);
                    }
                    if p < pos[m] {
                        assert(pre.lvl(pos[m]) >= m);
                        assert(false);
                    }
                    assert(false);
                }
            }
            let t2 = if t == pre.clen() {
                post.clen()
            } else if t < pc {
                t
            } else {
                t - 1
            };
            assert(t2 < post.clen() ==> post.lvl(t2) >= m) by {
                if t2 < post.clen() {
                    assert(post.lvl(t2) == pre.lvl(t));
                }
            }
            assert forall|r2: int| p2 < r2 < t2 implies #[trigger] post.lvl(r2) < m by {
                let r = if r2 < pc {
                    r2
                } else {
                    r2 + 1
                };
                assert(post.lvl(r2) == pre.lvl(r));
                if rerouted {
                    if r < pc {
                        assert(pre.lvl(r) < m);
                    } else {
                        assert(pc < r < t);
                        assert(pre.lvl(r) < m);
                    }
                } else {
                    assert(p < r < t);
                    assert(pre.lvl(r) < m);
                }
            }
            post.lemma_next_above_is(p2, m, t2);
            if t < pre.clen() {
                assert(post.ch()[t2] == pre.ch()[t]);
            }
        }

        assert(post@ =~= pre@.remove(pc));
    }
}


impl<K: OrderedKey, V> SkipList<K, V> {
    /// Remove the entry whose key is tied with `key`, returning its value.
    /// The node is unlinked from every level it participates in before its
    /// slot is vacated, and the list's height never shrinks.
    pub fn remove(&mut self, key: &K) -> (r: Option<V>)
        requires
            old(self).wf(),
        ensures
            final(self).wf(),
            final(self).spec_height() == old(self).spec_height(),
            r == spec_get(old(self)@, *key),
            final(self)@ == model_remove(old(self)@, *key),
            !has_key(old(self)@, *key) ==> *final(self) == *old(self),
    {
        if self.head.len() == 0 {
            proof {
                self.lemma_height_zero();
            }
            return None;
        }
        let (preds, gpos) = self.search_preds(key);
        let ghost pos = gpos@;
        let pd = preds[0];
        let ghost p0 = pos[0];
        proof {
            assert(self.pred_ok(*key, 0, p0, pd));
            self.lemma_pred0_seek(*key, p0, pd);
            assert(self.link_ok(p0, 0));
            self.lemma_next_above_props(p0, 0);
        }
        let cand = self.link_at(pd, Ghost(p0), 0);
        match cand {
            None => {
                proof {
                    assert(self.next_above(p0, 0) == self.clen());
                    if p0 + 1 < self.clen() {
                        assert(self.node_ok(p0 + 1));
                        self.lemma_next_above_is(p0, 0, p0 + 1);
                    }
                    assert(seek(self@, *key) == self@.len());
                }
                None
            },
            Some(cidx) => {
                let ghost pc = p0 + 1;
                proof {
                    assert(self.next_above(p0, 0) < self.clen());
                    assert(self.node_ok(p0 + 1));
                    self.lemma_next_above_is(p0, 0, p0 + 1);
                    assert(self.node_ok(pc));
                    assert(self.nodes@.len() == self.nodes.len());
                    assert(cidx as int == self.ch()[pc]);
                }
                let cres = {
                    let node = self.node_ref(cidx, Ghost(pc));
                    node.key.key_cmp(key)
                };
                match cres {
                    KeyCmp::Tied => {
                        let ghost pre = *self;
                        let ghost c = pre.ch()[pc];
                        let clvl = {
                            let node = self.node_ref(cidx, Ghost(pc));
                            node.forward.len()
                        };
                        proof {
                            assert(forall|m: int|
                                0 <= m < pos.len() ==> self.pred_ok(
                                    *key,
                                    m,
                                    pos[m],
                                    #[trigger] preds@[m],
                                ));
                            assert forall|m: int| 0 <= m < pos.len() implies #[trigger] preds@[m]
                                == pre.pred_of(pos[m]) by {
                                assert(self.pred_ok(*key, m, pos[m], preds@[m]));
                            }
                            assert(clvl == pre.lvl(pc) + 1);
                            assert(clvl <= pre.head@.len());
                        }
                        let mut m: usize = 0;
                        while m < clvl
                            invariant
                                0 <= m <= clvl,
                                pre.wf(),
                                clvl == pre.lvl(pc) + 1,
                                clvl <= pre.head@.len(),
                                pos.len() == pre.head@.len(),
                                preds@.len() == pre.head@.len(),
                                forall|m2: int|
                                    0 <= m2 < pos.len() ==> pre.pred_ok(
                                        *key,
                                        m2,
                                        pos[m2],
                                        #[trigger] preds@[m2],
                                    ),
                                forall|m2: int|
                                    0 <= m2 < pos.len() ==> #[trigger] preds@[m2] == pre.pred_of(
                                        pos[m2],
                                    ),
                                forall|m2: int| 0 <= m2 < pos.len() ==> -1 <= #[trigger] pos[m2] < pc,
                                0 <= pc < pre.clen(),
                                c == pre.ch()[pc],
                                cidx as int == c,
                                !pre.key_at(pc).below(*key) && !(*key).below(pre.key_at(pc)),
                                self.head@.len() == pre.head@.len(),
                                self.chain@ == pre.chain@,
                                self.free@ == pre.free@,
                                self.nodes@.len() == pre.nodes@.len(),
                                forall|i: int|
                                    0 <= i < pre.nodes@.len() ==> #[trigger] Self::same_shape_at(
                                        pre,
                                        *self,
                                        i,
                                    ),
                                forall|p: int, m2: int|
                                    pre.link_dom(p, m2) ==> #[trigger] self.link(p, m2) == (if m2
                                        < m && p == pos[m2] {
                                        pre.link(pc, m2)
                                    } else {
                                        pre.link(p, m2)
                                    }),
                            decreases clvl - m,
                        {
                            proof {
                                assert(pre.node_ok(pc));
                                assert(pre.nodes.len() == pre.nodes@.len());
                                assert(Self::same_shape_at(pre, *self, c));
                                assert(pre.link_dom(pc, m as int));
                                assert(self.link(pc, m as int) == pre.link(pc, m as int));
                            }
                            let nxt = self.nodes[cidx].as_ref().unwrap().forward[m];
                            proof {
                                assert(nxt == pre.link(pc, m as int));
                                assert(pre.pred_ok(*key, m as int, pos[m as int], preds@[m as int]));
                            }
                            let ghost sm = *self;
                            let pdm = preds[m];
                            match pdm {
                                None => {
                                    self.head[m] = nxt;
                                    proof {
                                        assert(pos[m as int] == -1);
                                        assert(self.nodes@ == sm.nodes@);
                                        assert(self.head@ == sm.head@.update(m as int, nxt));
                                    }
                                },
                                Some(pi) => {
                                    proof {
                                        assert(pos[m as int] >= 0);
                                        assert(pre.node_ok(pos[m as int]));
                                        assert(Self::same_shape_at(pre, *self, pre.ch()[pos[m as int]]));
                                        assert(pi as int == pre.ch()[pos[m as int]]);
                                        assert(pre.lvl(pos[m as int]) >= m as int);
                                    }
                                    let slot = &mut self.nodes[pi];
                                    let nd = slot.as_mut().unwrap();
                                    nd.forward[m] = nxt;
                                    proof {
                                        let wi = pre.ch()[pos[m as int]];
                                        assert(self.head@ == sm.head@);
                                        assert(self.nodes@[wi] is Some);
                                        assert(self.nodes@[wi]->0.forward@ == sm.nodes@[wi]->0.forward@.update(
                                            m as int,
                                            nxt,
                                        ));
                                        assert(self.nodes@[wi]->0.key == sm.nodes@[wi]->0.key);
                                        assert(self.nodes@[wi]->0.value == sm.nodes@[wi]->0.value);
                                        assert(forall|i: int|
                                            0 <= i < sm.nodes@.len() && i != wi ==> self.nodes@[i]
                                                == #[trigger] sm.nodes@[i]);
                                    }
                                },
                            }
                            proof {
                                let wp = pos[m as int];
                                assert forall|i: int| 0 <= i < pre.nodes@.len() implies #[trigger] Self::same_shape_at(
                                    pre,
                                    *self,
                                    i,
                                ) by {
                                    assert(Self::same_shape_at(pre, sm, i));
                                }
                                assert forall|p: int, m2: int| pre.link_dom(p, m2) implies #[trigger] self.link(
                                    p,
                                    m2,
                                ) == (if m2 < m + 1 && p == pos[m2] {
                                    pre.link(pc, m2)
                                } else {
                                    pre.link(p, m2)
                                }) by {
                                    assert(sm.link(p, m2) == (if m2 < m && p == pos[m2] {
                                        pre.link(pc, m2)
                                    } else {
                                        pre.link(p, m2)
                                    }));
                                    if p >= 0 {
                                        assert(pre.node_ok(p));
                                    }
                                    if p == wp && m2 == m {
                                        assert(self.link(p, m2) == nxt);
                                    } else {
                                        if wp == -1 {
                                            assert(self.nodes@ == sm.nodes@);
                                            if p == -1 {
                                                assert(m2 != m);
                                                assert(self.head@[m2] == sm.head@[m2]);
                                            }
                                            assert(self.link(p, m2) == sm.link(p, m2));
                                        } else {
                                            let wi = pre.ch()[wp];
                                            assert(self.head@ == sm.head@);
                                            if p >= 0 {
                                                if p == wp {
                                                    assert(m2 != m);
                                                    assert(self.nodes@[wi]->0.forward@[m2]
                                                        == sm.nodes@[wi]->0.forward@[m2]);
                                                } else {
                                                    if p < wp {
                                                        assert(pre.ch()[p] != pre.ch()[wp]);
                                                    } else {
                                                        assert(pre.ch()[wp] != pre.ch()[p]);
                                                    }
                                                    assert(self.nodes@[pre.ch()[p]]
                                                        == sm.nodes@[pre.ch()[p]]);
                                                }
                                            }
                                            assert(self.link(p, m2) == sm.link(p, m2));
                                        }
                                    }
                                }
                            }
                            m += 1;
                        }
                        // the node is now off every level; vacate its slot
                        let ghost s1 = *self;
                        proof {
                            assert(Self::same_shape_at(pre, s1, c));
                            assert(pre.nodes.len() == pre.nodes@.len());
                        }
                        let slot = &mut self.nodes[cidx];
                        let node = slot.take().unwrap();
                        self.free.push(cidx);
                        proof {
                            self.chain = Ghost(pre.ch().remove(pc));
                        }
                        proof {
                            assert(self.nodes@ == s1.nodes@.update(c, None));
                            assert forall|p: int, m2: int| pre.link_dom(p, m2) implies #[trigger] s1.link(
                                p,
                                m2,
                            ) == (if m2 <= pre.lvl(pc) && p == pos[m2] {
                                pre.link(pc, m2)
                            } else {
                                pre.link(p, m2)
                            }) by {}
                            Self::lemma_remove_rewire(pre, s1, *self, *key, pos, pc);
                            assert(pre@[pc].1 == pre.val_at(pc));
                        }
                        Some(node.value)
                    },
                    _ => {
                        proof {
                            assert(!self.key_at(pc).below(*key));
                            if cres == KeyCmp::Above {
                                assert((*key).below(self.key_at(pc)));
                            }
                            assert(!has_key(self@, *key));
                        }
                        None
                    },
                }
            },
        }
    }
}


/// Relies on rand::random: draws a value of `T` from the thread-local
/// generator's standard distribution. Nothing can be promised of a random
/// value, so this carries no contract.
pub assume_specification<T>[ rand::random::<T> ]() -> (r: T)
    where
        rand::distributions::Standard: rand::distributions::Distribution<T>,
;

impl<K: OrderedKey, V> SkipList<K, V> {
    /// Pick the participation level for a new node: count the run of zero
    /// bits in a random word, capped at the current height. Each further
    /// level is half as likely as the one before, which keeps the expected
    /// number of nodes per level decaying geometrically.
    pub(crate) fn choose_level(&self) -> (lvl: usize)
        ensures
            lvl <= self.spec_height(),
    {
        let max = self.head.len();
        let mut num: usize = rand::random::<usize>();
        let mut level: usize = 0;
        while level < max
            invariant_except_break
                level <= max,
                max == self.spec_height(),
            ensures
                level <= max,
            decreases max - level,
        {
            if num & 1 == 1 {
                break ;
            }
            level += 1;
            num >>= 1;
        }
        level
    }

    /// Append one empty level on top.
    pub(crate) fn grow_level(&mut self)
        requires
            old(self).wf(),
        ensures
            final(self).wf(),
            final(self)@ == old(self)@,
            final(self).spec_height() == old(self).spec_height() + 1,
            final(self).chain@ == old(self).chain@,
    {
        let ghost pre = *self;
        let ghost hl = self.head@.len() as int;
        self.head.push(None);
        proof {
            assert forall|p: int|
                #![trigger self.node_ok(p)]
                #![trigger self.key_at(p)]
                #![trigger self.lvl(p)]
                0 <= p < pre.clen() implies self.node_ok(p) && self.lvl(p) == pre.lvl(p)
                && self.key_at(p) == pre.key_at(p) && self.val_at(p) == pre.val_at(p) by {
                assert(pre.node_ok(p));
            }
            assert forall|p: int, q: int| 0 <= p < q < pre.clen() implies (
            #[trigger] self.key_at(p)).below(#[trigger] self.key_at(q)) by {
                assert(pre.key_at(p).below(pre.key_at(q)));
            }
            assert forall|p: int, l: int| self.link_dom(p, l) implies #[trigger] self.link_ok(
                p,
                l,
            ) by {
                Self::lemma_next_above_same(pre, *self, p, l);
                if p == -1 && l == hl {
                    pre.lemma_next_above_props(p, l);
                    if pre.next_above(p, l) < pre.clen() {
                        assert(pre.node_ok(pre.next_above(p, l)));
                        assert(pre.lvl(pre.next_above(p, l)) < hl);
                        assert(false);
                    }
                } else {
                    assert(pre.link_dom(p, l));
                    assert(pre.link_ok(p, l));
                    assert(self.link(p, l) == pre.link(p, l));
                }
            }
            assert forall|j: int| 0 <= j < self.free@.len() implies #[trigger] self.free_entry_ok(
                j,
            ) by {
                assert(pre.free_entry_ok(j));
            }
            assert(self@ =~= pre@);
        }
    }
}


impl<K: OrderedKey, V> SkipList<K, V> {
    /// Splicing a fresh node for a key that is not present — linked at every
    /// level up to `lv` between the recorded predecessors and their old
    /// targets — keeps the list well formed and inserts exactly its pair
    /// into the view.
    #[verifier::rlimit(80)]
    pub(crate) proof fn lemma_insert_rewire(
        pre: Self,
        post: Self,
        k: K,
        v: V,
        pos: Seq<int>,
        idx: int,
        lv: int,
    )
        requires
            pre.wf(),
            pos.len() == pre.head@.len(),
            forall|m: int| 0 <= m < pos.len() ==> pre.pred_ok(k, m, pos[m], pre.pred_of(pos[m])),
            !has_key(pre@, k),
            0 <= lv < pre.head@.len(),
            0 <= idx < post.nodes@.len(),
            forall|p: int| 0 <= p < pre.clen() ==> pre.ch()[p] != idx,
            post.nodes@.len() == pre.nodes@.len() || (post.nodes@.len() == pre.nodes@.len() + 1
                && idx == pre.nodes@.len()),
            post.nodes@[idx] is Some,
            post.nodes@[idx]->0.key == k,
            post.nodes@[idx]->0.value == v,
            post.nodes@[idx]->0.forward@.len() == lv + 1,
            forall|i: int|
                0 <= i < pre.nodes@.len() && i != idx ==> #[trigger] Self::same_shape_at(
                    pre,
                    post,
                    i,
                ),
            post.chain@ == pre.ch().insert(pos[0] + 1, idx),
            post.head@.len() == pre.head@.len(),
            forall|l: int|
                0 <= l <= lv ==> post.nodes@[idx]->0.forward@[l] == pre.link(#[trigger] pos[l], l),
            forall|p: int, m: int|
                #[trigger] pre.link_dom(p, m) ==> post.link(
                    if p < pos[0] + 1 {
                        p
                    } else {
                        p + 1
                    },
                    m,
                ) == (if m <= lv && p == pos[m] {
                    Some(idx as usize)
                } else {
                    pre.link(p, m)
                }),
            post.wf_free(),
        ensures
            post.wf(),
            post@ == pre@.insert(pos[0] + 1, (k, v)),
            post.spec_height() == pre.spec_height(),
    {
        let pins = pos[0] + 1;
        assert(pre.pred_ok(k, 0, pos[0], pre.pred_of(pos[0])));
        pre.lemma_pred0_seek(k, pos[0], pre.pred_of(pos[0]));
        lemma_seek_props(pre@, k);
        assert(pre.nodes.len() == pre.nodes@.len());
        assert(post.nodes.len() == post.nodes@.len());
        assert(post.clen() == pre.clen() + 1);

        // the new key sits strictly between its neighbours
        assert forall|p: int| 0 <= p < pins implies (#[trigger] pre.key_at(p)).below(k) by {
            assert(pre@[p].0 == pre.key_at(p));
        }
        if pins < pre.clen() {
            assert(pre@[pins].0 == pre.key_at(pins));
            assert(k.below(pre.key_at(pins)));
        }
        assert forall|q: int| pins <= q < pre.clen() implies k.below(#[trigger] pre.key_at(q)) by {
            if q > pins {
                assert(pre.key_at(pins).below(pre.key_at(q)));
                K::lemma_transitivity(k, pre.key_at(pins), pre.key_at(q));
            }
        }
        // every predecessor sits before the insertion point
        assert forall|m: int| 0 <= m < pos.len() implies -1 <= #[trigger] pos[m] <= pos[0] by {
            assert(pre.pred_ok(k, m, pos[m], pre.pred_of(pos[m])));
            if pos[m] > pos[0] {
                assert(pre.lvl(pos[m]) >= 0);
                assert(!pre.key_at(pos[m]).below(k));
            }
        }

        // pointwise shape of the new chain
        assert forall|p2: int|
            #![trigger post.lvl(p2)]
            #![trigger post.key_at(p2)]
            #![trigger post.node_ok(p2)]
            0 <= p2 < post.clen() implies ({
            &&& post.node_ok(p2)
            &&& p2 == pins ==> post.ch()[p2] == idx && post.key_at(p2) == k && post.val_at(p2)
                == v && post.lvl(p2) == lv
            &&& p2 != pins ==> ({
                let p = if p2 < pins {
                    p2
                } else {
                    p2 - 1
                };
                &&& post.ch()[p2] == pre.ch()[p]
                &&& post.key_at(p2) == pre.key_at(p)
                &&& post.val_at(p2) == pre.val_at(p)
                &&& post.lvl(p2) == pre.lvl(p)
            })
        }) by {
            if p2 == pins {
                assert(post.ch()[p2] == idx);
            } else {
                let p = if p2 < pins {
                    p2
                } else {
                    p2 - 1
                };
                assert(post.ch()[p2] == pre.ch()[p]);
                assert(pre.node_ok(p));
                assert(pre.ch()[p] != idx);
                assert(Self::same_shape_at(pre, post, pre.ch()[p]));
            }
        }

        assert(post.wf_nodes());
        assert forall|p2: int, q2: int| 0 <= p2 < q2 < post.clen() implies (
        #[trigger] post.key_at(p2)).below(#[trigger] post.key_at(q2)) by {
            let p = if p2 < pins {
                p2
            } else {
                p2 - 1
            };
            let q = if q2 < pins {
                q2
            } else {
                q2 - 1
            };
            if p2 == pins {
                assert(k.below(pre.key_at(q)));
            } else if q2 == pins {
                assert(pre.key_at(p).below(k));
            } else {
                assert(pre.key_at(p).below(pre.key_at(q)));
            }
        }
        assert(post.wf_sorted());
        assert forall|p2: int, q2: int| 0 <= p2 < q2 < post.clen() implies #[trigger] post.ch()[p2]
            != #[trigger] post.ch()[q2] by {
            let p = if p2 < pins {
                p2
            } else {
                p2 - 1
            };
            let q = if q2 < pins {
                q2
            } else {
                q2 - 1
            };
            if p2 == pins {
                assert(pre.ch()[q] != idx);
            } else if q2 == pins {
                assert(pre.ch()[p] != idx);
            } else {
                assert(pre.ch()[p] != pre.ch()[q]);
            }
        }
        assert(post.wf_distinct());

        assert forall|i: int| 0 <= i < post.n() && #[trigger] post.nodes@[i] is Some implies
            post.ch().contains(i) by {
            if i == idx {
                assert(post.ch()[pins] == idx);
            } else {
                assert(i < pre.n());
                assert(Self::same_shape_at(pre, post, i));
                assert(pre.nodes@[i] is Some);
                assert(exists|q: int| 0 <= q < pre.clen() && #[trigger] pre.ch()[q] == i) by {
                    let q0 = pre.ch().index_of(i);
                    assert(pre.ch().contains(i));
                    assert(pre.ch()[q0] == i);
                }
                let q1 = choose|q: int| 0 <= q < pre.clen() && #[trigger] pre.ch()[q] == i;
                let q2 = if q1 < pins {
                    q1
                } else {
                    q1 + 1
                };
                assert(post.ch()[q2] == i);
            }
        }

        // the links
        assert forall|p2: int, m: int| post.link_dom(p2, m) implies #[trigger] post.link_ok(
            p2,
            m,
        ) by {
            if p2 == pins {
                // the new node inherits its predecessor's old target
                assert(m <= lv);
                assert(post.link(p2, m) == pre.link(pos[m], m)) by {
                    assert(post.nodes@[idx]->0.forward@[m] == pre.link(pos[m], m));
                }
                assert(pre.link_dom(pos[m], m)) by {
                    if pos[m] >= 0 {
                        assert(pre.pred_ok(k, m, pos[m], pre.pred_of(pos[m])));
                    }
                }
                assert(pre.link_ok(pos[m], m));
                let t = pre.next_above(pos[m], m);
                pre.lemma_next_above_props(pos[m], m);
                if t < pins {
                    assert(pre.key_at(t).below(k));
                    assert(pre.pred_ok(k, m, pos[m], pre.pred_of(pos[m])));
                    assert(pre.lvl(t) >= m);
                    assert(false);
                }
                let t2 = if t == pre.clen() {
                    post.clen()
                } else {
                    t + 1
                };
                assert forall|r2: int| pins < r2 < t2 implies #[trigger] post.lvl(r2) < m by {
                    assert(post.lvl(r2) == pre.lvl(r2 - 1));
                    assert(pre.lvl(r2 - 1) < m);
                }
                assert(t2 < post.clen() ==> post.lvl(t2) >= m) by {
                    if t2 < post.clen() {
                        assert(post.lvl(t2) == pre.lvl(t));
                    }
                }
                post.lemma_next_above_is(pins, m, t2);
                if t < pre.clen() {
                    assert(post.ch()[t2] == pre.ch()[t]);
                }
            } else {
                let p = if p2 < pins {
                    p2
                } else {
                    p2 - 1
                };
                assert(pre.link_dom(p, m)) by {
                    if p2 >= 0 {
                        assert(post.lvl(p2) == pre.lvl(p));
                    }
                }
                assert(post.link(if p < pins {
                    p
                } else {
                    p + 1
                }, m) == (if m <= lv && p == pos[m] {
                    Some(idx as usize)
                } else {
                    pre.link(p, m)
                }));
                assert(pre.link_ok(p, m));
                pre.lemma_next_above_props(p, m);
                if m <= lv && p == pos[m] {
                    // a rewired predecessor now reaches the new node
                    assert(post.link(p2, m) == Some(idx as usize));
                    assert forall|r2: int| p2 < r2 < pins implies #[trigger] post.lvl(r2) < m by {
                        assert(post.lvl(r2) == pre.lvl(r2));
                        assert(pre.key_at(r2).below(k));
                        assert(pre.pred_ok(k, m, pos[m], pre.pred_of(pos[m])));
                        if pre.lvl(r2) >= m {
                            assert(!pre.key_at(r2).below(k));
                        }
                    }
                    assert(post.lvl(pins) == lv >= m);
                    post.lemma_next_above_is(p2, m, pins);
                    assert(post.ch()[pins] == idx);
                } else {
                    assert(post.link(p2, m) == pre.link(p, m));
                    let t = pre.next_above(p, m);
                    let t2 = if t == pre.clen() {
                        post.clen()
                    } else if t < pins {
                        t
                    } else {
                        t + 1
                    };
                    assert forall|r2: int| p2 < r2 < t2 implies #[trigger] post.lvl(r2) < m by {
                        if r2 == pins {
                            // the new node cannot fall in this gap at a level
                            // it participates in
                            if m <= lv {
                                assert(p < pins);
                                assert(pre.pred_ok(k, m, pos[m], pre.pred_of(pos[m])));
                                if p > pos[m] {
                                    assert(p >= 0);
                                    assert(pre.lvl(p) >= m);
                                    assert(pre.key_at(p).below(k));
                                    assert(false);
                                } else {
                                    assert(p < pos[m]);
                                    assert(pos[m] < t) by {
                                        if t2 <= pins {
                                            assert(false);
                                        }
                                        assert(t >= pins);
                                    }
                                    assert(pre.lvl(pos[m]) >= m);
                                    assert(pre.lvl(pos[m]) < m);
                                    assert(false);
                                }
                            }
                            assert(post.lvl(pins) == lv);
                        } else {
                            let r = if r2 < pins {
                                r2
                            } else {
                                r2 - 1
                            };
                            assert(post.lvl(r2) == pre.lvl(r));
                            assert(p < r < t);
                            assert(pre.lvl(r) < m);
                        }
                    }
                    assert(t2 < post.clen() ==> post.lvl(t2) >= m) by {
                        if t2 < post.clen() {
                            // the mapped target is never the new node's slot:
                            // a target below `pins` keeps its position, one at
                            // or above it moves past `pins`
                            assert(t2 != pins) by {
                                if t2 == pins {
                                    assert(t < pins && t2 == t);
                                }
                            }
                            assert(post.lvl(t2) == pre.lvl(t));
                        }
                    }
                    post.lemma_next_above_is(p2, m, t2);
                    if t < pre.clen() {
                        assert(post.ch()[t2] == pre.ch()[t]);
                    }
                }
            }
        }

        assert(post@ =~= pre@.insert(pins, (k, v)));
    }
}


impl<K: OrderedKey, V> SkipList<K, V> {
    /// Splice a fresh node for a key that is not yet present, participating
    /// in levels `0..=lv`.
    pub(crate) fn insert_fresh(&mut self, key: K, value: V, lv: usize)
        requires
            old(self).wf(),
            !has_key(old(self)@, key),
            lv < old(self).spec_height(),
        ensures
            final(self).wf(),
            final(self).spec_height() == old(self).spec_height(),
            final(self)@ == old(self)@.insert(seek(old(self)@, key), (key, value)),
    {
        let ghost gk = key;
        let ghost gv = value;
        let (preds, gpos) = self.search_preds(&key);
        let ghost pos = gpos@;
        let ghost pre = *self;
        proof {
            assert(forall|m: int|
                0 <= m < pos.len() ==> self.pred_ok(gk, m, pos[m], #[trigger] preds@[m]));
            assert forall|m: int| 0 <= m < pos.len() implies #[trigger] preds@[m] == pre.pred_of(
                pos[m],
            ) by {
                assert(self.pred_ok(gk, m, pos[m], preds@[m]));
            }
            self.lemma_pred0_seek(gk, pos[0], preds@[0]);
            assert(pre.head.len() == pre.head@.len());
            assert(pre.nodes.len() == pre.nodes@.len());
        }
        // gather the targets the new node will take over
        let mut fwd: Vec<Option<usize>> = Vec::new();
        let mut l: usize = 0;
        while l < lv + 1
            invariant
                pre == *self,
                pre.wf(),
                l <= lv + 1,
                lv < usize::MAX,
                lv < pre.head@.len(),
                pos.len() == pre.head@.len(),
                preds@.len() == pre.head@.len(),
                forall|m: int| 0 <= m < pos.len() ==> pre.pred_ok(gk, m, pos[m], #[trigger] preds@[m]),
                forall|m: int| 0 <= m < pos.len() ==> #[trigger] preds@[m] == pre.pred_of(pos[m]),
                fwd@.len() == l,
                forall|l2: int| 0 <= l2 < l ==> #[trigger] fwd@[l2] == pre.link(pos[l2], l2),
            decreases lv + 1 - l,
        {
            proof {
                assert(pre.pred_ok(gk, l as int, pos[l as int], preds@[l as int]));
                assert(pre.link_dom(pos[l as int], l as int));
            }
            let e = self.link_at(preds[l], Ghost(pos[l as int]), l);
            fwd.push(e);
            l += 1;
        }
        let node = Node { key, value, forward: fwd };
        // put the node into a vacant slot, or extend the arena
        let ghost mut popped = false;
        let idx: usize = match self.free.pop() {
            Some(i) => {
                proof {
                    popped = true;
                    assert(pre.free_entry_ok(pre.free@.len() - 1));
                    assert(self.nodes@.len() == self.nodes.len());
                }
                self.nodes[i] = Some(node);
                i
            },
            None => {
                let i = self.nodes.len();
                self.nodes.push(Some(node));
                i
            },
        };
        let ghost s1 = *self;
        proof {
            assert(s1.nodes@[idx as int] is Some);
            assert(s1.nodes@[idx as int]->0.forward@.len() == lv + 1);
            // the fresh slot is off the chain
            assert forall|p: int| 0 <= p < pre.clen() implies pre.ch()[p] != idx as int by {
                assert(pre.node_ok(p));
                if popped {
                    assert(pre.nodes@[idx as int] is None);
                } else {
                    assert(pre.ch()[p] < pre.nodes@.len());
                }
            }
            // before any rewiring, the old slots and links are untouched
            assert forall|i: int| 0 <= i < pre.nodes@.len() && i != idx as int implies #[trigger] Self::same_shape_at(
                pre,
                s1,
                i,
            ) by {
                assert(s1.nodes@[i] == pre.nodes@[i]);
            }
            assert forall|p: int, m2: int| #[trigger] pre.link_dom(p, m2) implies s1.link(p, m2)
                == pre.link(p, m2) by {
                if p >= 0 {
                    assert(pre.node_ok(p));
                    assert(pre.ch()[p] != idx as int);
                    assert(s1.nodes@[pre.ch()[p]] == pre.nodes@[pre.ch()[p]]);
                }
            }
        }
        // rewire every level up to `lv` through the new node
        let mut m: usize = 0;
        while m < lv + 1
            invariant
                0 <= m <= lv + 1,
                pre.wf(),
                lv < usize::MAX,
                lv < pre.head@.len(),
                pos.len() == pre.head@.len(),
                preds@.len() == pre.head@.len(),
                forall|m2: int| 0 <= m2 < pos.len() ==> pre.pred_ok(gk, m2, pos[m2], #[trigger] preds@[m2]),
                forall|m2: int| 0 <= m2 < pos.len() ==> #[trigger] preds@[m2] == pre.pred_of(pos[m2]),
                idx < s1.nodes@.len(),
                forall|p: int| 0 <= p < pre.clen() ==> pre.ch()[p] != idx as int,
                self.head@.len() == pre.head@.len(),
                self.chain@ == pre.chain@,
                self.free@ == s1.free@,
                self.nodes@.len() == s1.nodes@.len(),
                s1.nodes@.len() == pre.nodes@.len() || (s1.nodes@.len() == pre.nodes@.len() + 1
                    && idx as int == pre.nodes@.len()),
                self.nodes@[idx as int] == s1.nodes@[idx as int],
                s1.nodes@[idx as int] is Some,
                s1.nodes@[idx as int]->0.key == gk,
                s1.nodes@[idx as int]->0.value == gv,
                s1.nodes@[idx as int]->0.forward@.len() == lv + 1,
                forall|l2: int|
                    0 <= l2 < lv + 1 ==> #[trigger] s1.nodes@[idx as int]->0.forward@[l2]
                        == pre.link(pos[l2], l2),
                forall|i: int|
                    0 <= i < pre.nodes@.len() && i != idx as int ==> #[trigger] Self::same_shape_at(
                        pre,
                        *self,
                        i,
                    ),
                forall|p: int, m2: int|
                    #[trigger] pre.link_dom(p, m2) ==> self.link(p, m2) == (if m2 < m && p
                        == pos[m2] {
                        Some(idx)
                    } else {
                        pre.link(p, m2)
                    }),
            decreases lv + 1 - m,
        {
            proof {
                assert(pre.pred_ok(gk, m as int, pos[m as int], preds@[m as int]));
            }
            let ghost sm = *self;
            let pdm = preds[m];
            match pdm {
                None => {
                    self.head[m] = Some(idx);
                    proof {
                        assert(pos[m as int] == -1);
                        assert(self.nodes@ == sm.nodes@);
                        assert(self.head@ == sm.head@.update(m as int, Some(idx)));
                    }
                },
                Some(pi) => {
                    proof {
                        assert(pos[m as int] >= 0);
                        assert(pre.node_ok(pos[m as int]));
                        assert(pre.nodes.len() == pre.nodes@.len());
                        assert(self.nodes@.len() == self.nodes.len());
                        assert(Self::same_shape_at(pre, *self, pre.ch()[pos[m as int]]));
                        assert(pi as int == pre.ch()[pos[m as int]]);
                        assert(pre.lvl(pos[m as int]) >= m as int);
                    }
                    let slot = &mut self.nodes[pi];
                    let nd = slot.as_mut().unwrap();
                    nd.forward[m] = Some(idx);
                    proof {
                        let wi = pre.ch()[pos[m as int]];
                        assert(self.head@ == sm.head@);
                        assert(self.nodes@[wi] is Some);
                        assert(self.nodes@[wi]->0.forward@ == sm.nodes@[wi]->0.forward@.update(
                            m as int,
                            Some(idx),
                        ));
                        assert(self.nodes@[wi]->0.key == sm.nodes@[wi]->0.key);
                        assert(self.nodes@[wi]->0.value == sm.nodes@[wi]->0.value);
                        assert(forall|i: int|
                            0 <= i < sm.nodes@.len() && i != wi ==> self.nodes@[i]
                                == #[trigger] sm.nodes@[i]);
                    }
                },
            }
            proof {
                let wp = pos[m as int];
                assert forall|i: int| 0 <= i < pre.nodes@.len() && i != idx as int implies #[trigger] Self::same_shape_at(
                    pre,
                    *self,
                    i,
                ) by {
                    assert(Self::same_shape_at(pre, sm, i));
                }
                assert forall|p: int, m2: int| #[trigger] pre.link_dom(p, m2) implies self.link(
                    p,
                    m2,
                ) == (if m2 < m + 1 && p == pos[m2] {
                    Some(idx)
                } else {
                    pre.link(p, m2)
                }) by {
                    assert(sm.link(p, m2) == (if m2 < m && p == pos[m2] {
                        Some(idx)
                    } else {
                        pre.link(p, m2)
                    }));
                    if p >= 0 {
                        assert(pre.node_ok(p));
                    }
                    if p == wp && m2 == m {
                        assert(self.link(p, m2) == Some(idx));
                    } else {
                        if wp == -1 {
                            assert(self.nodes@ == sm.nodes@);
                            if p == -1 {
                                assert(m2 != m);
                                assert(self.head@[m2] == sm.head@[m2]);
                            }
                            assert(self.link(p, m2) == sm.link(p, m2));
                        } else {
                            let wi = pre.ch()[wp];
                            assert(self.head@ == sm.head@);
                            if p >= 0 {
                                if p == wp {
                                    assert(m2 != m);
                                    assert(self.nodes@[wi]->0.forward@[m2]
                                        == sm.nodes@[wi]->0.forward@[m2]);
                                } else {
                                    if p < wp {
                                        assert(pre.ch()[p] != pre.ch()[wp]);
                                    } else {
                                        assert(pre.ch()[wp] != pre.ch()[p]);
                                    }
                                    assert(self.nodes@[pre.ch()[p]] == sm.nodes@[pre.ch()[p]]);
                                }
                            }
                            assert(self.link(p, m2) == sm.link(p, m2));
                        }
                    }
                }
                assert(self.nodes@[idx as int] == sm.nodes@[idx as int]) by {
                    if wp >= 0 {
                        assert(pre.ch()[wp] != idx as int);
                    }
                }
            }
            m += 1;
        }
        let ghost s2 = *self;
        proof {
            self.chain = Ghost(pre.ch().insert(pos[0] + 1, idx as int));
        }
        proof {
            let post = *self;
            assert(post.nodes@ == s2.nodes@);
            assert(post.head@ == s2.head@);
            assert(post.free@ == s2.free@);
            // the free list still names exactly reusable slots
            assert forall|j: int| 0 <= j < post.free@.len() implies #[trigger] post.free_entry_ok(
                j,
            ) by {
                assert(pre.free_entry_ok(j));
                if popped {
                    assert(pre.free@[j] == pre.free@[j]);
                    assert(post.free@ == pre.free@.drop_last());
                    assert(pre.free@[pre.free@.len() - 1] == idx);
                    assert(pre.free@[j] != idx);
                } else {
                    assert((pre.free@[j] as int) < pre.nodes@.len());
                }
                assert(post.nodes@[pre.free@[j] as int] is None) by {
                    assert(pre.nodes@[pre.free@[j] as int] is None);
                    assert(pre.free@[j] != idx);
                    assert(Self::same_shape_at(pre, s2, pre.free@[j] as int));
                }
            }
            assert forall|j: int, j2: int| 0 <= j < j2 < post.free@.len() implies post.free@[j]
                != post.free@[j2] by {
                assert(pre.free@[j] != pre.free@[j2]);
            }
            // hand the rewired links to the splicing argument
            assert forall|p: int, m2: int| #[trigger] pre.link_dom(p, m2) implies post.link(
                if p < pos[0] + 1 {
                    p
                } else {
                    p + 1
                },
                m2,
            ) == (if m2 <= lv && p == pos[m2] {
                Some(idx)
            } else {
                pre.link(p, m2)
            }) by {
                let p2 = if p < pos[0] + 1 {
                    p
                } else {
                    p + 1
                };
                if p >= 0 {
                    assert(pre.node_ok(p));
                    assert(post.ch()[p2] == pre.ch()[p]);
                }
            }
            assert forall|l2: int| 0 <= l2 <= lv implies post.nodes@[idx as int]->0.forward@[l2]
                == pre.link(#[trigger] pos[l2], l2) by {}
            assert forall|i: int| 0 <= i < pre.nodes@.len() && i != idx as int implies #[trigger] Self::same_shape_at(
                pre,
                post,
                i,
            ) by {
                assert(Self::same_shape_at(pre, s2, i));
            }
            Self::lemma_insert_rewire(pre, post, gk, gv, pos, idx as int, lv as int);
        }
    }
}


/// Taking the tied entry out of a sorted sequence keeps it sorted, leaves the
/// key absent, and keeps `seek` at the same position.
pub proof fn lemma_seek_after_remove<K: OrderedKey, V>(s: Seq<(K, V)>, k: K)
    requires
        sorted_pairs(s),
        has_key(s, k),
    ensures
        ({
            let i = seek(s, k);
            let t = s.remove(i);
            &&& sorted_pairs(t)
            &&& seek(t, k) == i
            &&& !has_key(t, k)
        }),
{
    let i = seek(s, k);
    let t = s.remove(i);
    lemma_seek_props(s, k);
    assert forall|a: int, b: int| 0 <= a < b < t.len() implies (#[trigger] t[a]).0.below(
        (#[trigger] t[b]).0,
    ) by {
        let a2 = if a < i {
            a
        } else {
            a + 1
        };
        let b2 = if b < i {
            b
        } else {
            b + 1
        };
        assert(t[a] == s[a2]);
        assert(t[b] == s[b2]);
        assert(s[a2].0.below(s[b2].0));
    }
    assert forall|j: int| 0 <= j < i implies (#[trigger] t[j]).0.below(k) by {
        assert(t[j] == s[j]);
    }
    if i < t.len() {
        assert(t[i] == s[i + 1]);
        assert(s[i].0.below(s[i + 1].0));
        crate::order::lemma_tied_below(k, s[i].0, s[i + 1].0);
        K::lemma_asymmetry(k, s[i + 1].0);
    }
    lemma_seek_is(t, k, i);
}

impl<K: OrderedKey, V> SkipList<K, V> {
    /// Insert the pair, replacing (and returning the value of) any entry
    /// whose key is tied with `key`. A random participation level is chosen
    /// first and may grow the list's height by one; a same-key node is
    /// unlinked from every level it occupies before the new node — whose
    /// level is its own, unrelated to the old node's — is spliced in.
    pub fn insert(&mut self, key: K, value: V) -> (prev: Option<V>)
        requires
            old(self).wf(),
        ensures
            final(self).wf(),
            old(self).spec_height() <= final(self).spec_height() <= old(self).spec_height() + 1,
            prev == spec_get(old(self)@, key),
            final(self)@ == model_insert(old(self)@, key, value),
    {
        let lv = self.choose_level();
        if lv == self.head.len() {
            self.grow_level();
        }
        let ghost s0 = *self;
        let ghost sv = s0@;
        proof {
            self.lemma_view_sorted();
        }
        let prev = self.remove(&key);
        proof {
            if has_key(sv, key) {
                lemma_seek_after_remove(sv, key);
            }
        }
        self.insert_fresh(key, value, lv);
        proof {
            if has_key(sv, key) {
                let i = seek(sv, key);
                let t = sv.remove(i);
                lemma_seek_props(sv, key);
                assert(self@ == t.insert(i, (key, value)));
                sv.remove_ensures(i);
                t.insert_ensures(i, (key, value));
                assert forall|j: int| 0 <= j < self@.len() implies self@[j] == sv.update(
                    i,
                    (key, value),
                )[j] by {
                    if j < i {
                        assert(t.insert(i, (key, value))[j] == t[j]);
                        assert(t[j] == sv[j]);
                    } else if j > i {
                        assert(t.insert(i, (key, value))[j] == t[j - 1]);
                        assert(t[j - 1] == sv[j]);
                    }
                }
                assert(self@ =~= sv.update(i, (key, value)));
            }
        }
        prev
    }

    /// The view of a well-formed list is sorted: strictly ascending keys, no
    /// two of them tied.
    pub proof fn lemma_view_sorted(&self)
        requires
            self.wf(),
        ensures
            sorted_pairs(self@),
    {
        assert forall|i: int, j: int| 0 <= i < j < self@.len() implies (#[trigger] self@[i]).0.below(
            (#[trigger] self@[j]).0,
        ) by {
            assert(self.key_at(i).below(self.key_at(j)));
        }
    }
}


impl<K: OrderedKey, V> SkipList<K, V> {
    pub(crate) fn entry_mut_raw(&mut self, c: usize, Ghost(q): Ghost<int>) -> (r: (&K, &mut V))
        requires
            old(self).wf(),
            0 <= q < old(self).clen(),
            old(self).ch()[q] == c as int,
        ensures
            Self::values_patched(*old(self), *final(self), q),
            *r.0 == old(self).key_at(q),
            *r.1 == old(self).val_at(q),
            *final(r.1) == final(self).val_at(q),
    {
        proof {
            assert(self.node_ok(q));
            assert(self.nodes@.len() == self.nodes.len());
        }
        let slot = &mut self.nodes[c];
        let nd = slot.as_mut().unwrap();
        (&nd.key, &mut nd.value)
    }

    /// Borrow the key and, mutably, the value of the node at chain position
    /// `q` (arena index `c`). Whatever the caller writes through the borrow
    /// becomes that node's value; keys and structure stay as they are.
    pub(crate) fn entry_mut(&mut self, c: usize, Ghost(q): Ghost<int>) -> (r: (&K, &mut V))
        requires
            old(self).wf(),
            0 <= q < old(self).clen(),
            old(self).ch()[q] == c as int,
        ensures
            *r.0 == old(self).key_at(q),
            *r.1 == old(self).val_at(q),
            *final(r.1) == final(self).val_at(q),
            final(self).wf(),
            final(self)@ == old(self)@.update(q, (old(self).key_at(q), *final(r.1))),
            final(self).spec_height() == old(self).spec_height(),
            final(self).chain@ == old(self).chain@,
    {
        proof {
            Self::lemma_value_update_wf(*self, q);
        }
        self.entry_mut_raw(c, Ghost(q))
    }
}

} // verus!
