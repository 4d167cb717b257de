//! Bounded range iteration.
//!
//! A range is given by a start and an end [`Bound`]. The start resolves to
//! the first node whose key satisfies it; the end resolves to a marker node,
//! compared by arena index, after whose yield iteration stops. A range whose
//! bounds cross is empty, not an error.

use vstd::prelude::*;

use crate::order::KeyCmp;
use crate::order::OrderedKey;
use crate::skip::SkipList;

verus! {

/// A range endpoint: the key itself may be part of the range (`Included`),
/// everything strictly beyond it is (`Excluded`), or the range is open on
/// that side (`Unbounded`).
pub enum Bound<K> {
    Included(K),
    Excluded(K),
    Unbounded,
}

/// Whether a key lies on or after the start bound.
pub open spec fn start_sat<K: OrderedKey>(b: Bound<K>, k: K) -> bool {
    match b {
        Bound::Included(s) => !k.below(s),
        Bound::Excluded(s) => s.below(k),
        Bound::Unbounded => true,
    }
}

/// Whether a key lies on or before the end bound.
pub open spec fn end_sat<K: OrderedKey>(b: Bound<K>, k: K) -> bool {
    match b {
        Bound::Included(e) => !e.below(k),
        Bound::Excluded(e) => k.below(e),
        Bound::Unbounded => true,
    }
}

/// The subsequence of `s` whose keys satisfy both bounds, in unchanged order.
pub open spec fn range_view<K: OrderedKey, V>(
    s: Seq<(K, V)>,
    start: Bound<K>,
    end: Bound<K>,
) -> Seq<(K, V)> {
    s.filter(|p: (K, V)| start_sat(start, p.0) && end_sat(end, p.0))
}

/// Filtering with a predicate that holds exactly on a window of positions
/// keeps exactly that window.
pub proof fn lemma_filter_window<A>(s: Seq<A>, pred: spec_fn(A) -> bool, lo: int, hi: int)
    requires
        0 <= lo <= s.len(),
        0 <= hi <= s.len(),
        forall|q: int| 0 <= q < s.len() ==> (pred(#[trigger] s[q]) <==> lo <= q < hi),
    ensures
        lo < hi ==> s.filter(pred) == s.subrange(lo, hi),
        lo >= hi ==> s.filter(pred) == Seq::<A>::empty(),
    decreases s.len(),
{
    reveal(Seq::filter);
    if s.len() == 0 {
        assert(s.filter(pred) =~= Seq::<A>::empty());
    } else {
        let t = s.drop_last();
        let x = s.last();
        let n = s.len() as int;
        let lo2 = if lo < n - 1 {
            lo
        } else {
            n - 1
        };
        let hi2 = if hi < n - 1 {
            hi
        } else {
            n - 1
        };
        assert forall|q: int| 0 <= q < t.len() implies (pred(#[trigger] t[q]) <==> lo2 <= q
            < hi2) by {
            assert(t[q] == s[q]);
        }
        lemma_filter_window(t, pred, lo2, hi2);
        if pred(x) {
            assert(lo <= n - 1 < hi);
            assert(hi == n);
            if lo2 < hi2 {
                assert(s.filter(pred) =~= s.subrange(lo, hi));
            } else {
                assert(lo2 >= hi2);
                assert(s.filter(pred) =~= s.subrange(lo, hi));
            }
        } else {
            assert(!(lo <= n - 1 < hi));
            if lo < hi {
                assert(hi <= n - 1);
                assert(lo2 == lo && hi2 == hi);
                assert(s.filter(pred) =~= s.subrange(lo, hi));
            } else {
                assert(s.filter(pred) =~= Seq::<A>::empty());
            }
        }
    }
}

/// A bounded forward pass, yielding `(&K, &V)` for the keys inside the
/// bounds, in ascending key order. Iteration stops after yielding the marker
/// node, recognised by its arena index.
pub struct Range<'a, K, V> {
    pub(crate) list: &'a SkipList<K, V>,
    pub(crate) cur: Option<usize>,
    pub(crate) back: Option<usize>,
    pub(crate) pos: Ghost<int>,
    pub(crate) end_pos: Ghost<int>,
}

impl<'a, K: OrderedKey, V> Range<'a, K, V> {
    pub closed spec fn wf(&self) -> bool {
        &&& self.list.wf()
        &&& 0 <= self.pos@ <= self.end_pos@ <= self.list.clen()
        &&& (self.pos@ < self.end_pos@ ==> self.cur == Some(self.list.ch()[self.pos@] as usize)
            && self.back == Some(self.list.ch()[self.end_pos@ - 1] as usize))
        &&& (self.pos@ == self.end_pos@ ==> self.cur is None || self.back is None)
    }

    /// The pairs not yet yielded, in order.
    pub closed spec fn remaining(&self) -> Seq<(K, V)> {
        self.list@.subrange(self.pos@, self.end_pos@)
    }

    /// Yield the next pair inside the bounds, or `None` past the marker.
    pub fn next(&mut self) -> (r: Option<(&'a K, &'a V)>)
        requires
            old(self).wf(),
        ensures
            final(self).wf(),
            old(self).remaining().len() == 0 ==> r is None && final(self).remaining()
                == old(self).remaining(),
            old(self).remaining().len() > 0 ==> (r matches Some(kv) && *kv.0 == old(
                self,
            ).remaining()[0].0 && *kv.1 == old(self).remaining()[0].1 && final(self).remaining()
                == old(self).remaining().subrange(1, old(self).remaining().len() as int)),
    {
        match self.back {
            None => {
                proof {
                    self.list.lemma_view_def();
                }
                None
            },
            Some(b) => {
                match self.cur {
                    None => {
                        proof {
                            self.list.lemma_view_def();
                        }
                        None
                    },
                    Some(i) => {
                        let ghost p = self.pos@;
                        proof {
                            self.list.lemma_view_def();
                            assert(p < self.end_pos@);
                            assert(self.list.node_ok(p));
                            assert(self.list.nodes@.len() == self.list.nodes.len());
                        }
                        let node = self.list.node_ref(i, Ghost(p));
                        if i == b {
                            proof {
                                // the marker's index names its position
                                assert(self.list.node_ok(self.end_pos@ - 1));
                                if p < self.end_pos@ - 1 {
                                    assert(self.list.ch()[p] != self.list.ch()[self.end_pos@ - 1]);
                                    assert(false);
                                }
                                assert(p == self.end_pos@ - 1);
                            }
                            self.cur = None;
                        } else {
                            proof {
                                assert(self.list.link_dom(p, 0));
                                assert(self.list.link_ok(p, 0));
                                self.list.lemma_next_above_props(p, 0);
                                assert(p != self.end_pos@ - 1);
                                assert(p + 1 < self.list.clen());
                                assert(self.list.node_ok(p + 1));
                                self.list.lemma_next_above_is(p, 0, p + 1);
                            }
                            self.cur = node.forward[0];
                        }
                        proof {
                            self.pos = Ghost(p + 1);
                            assert(self.remaining() =~= old(self).remaining().subrange(
                                1,
                                old(self).remaining().len() as int,
                            ));
                        }
                        Some((&node.key, &node.value))
                    },
                }
            },
        }
    }
}

impl<K: OrderedKey, V> SkipList<K, V> {
    /// The chain tail, found by walking each level forward from the top.
    pub(crate) fn last_node(&self) -> (r: Option<usize>)
        requires
            self.wf(),
        ensures
            self.clen() == 0 ==> r is None,
            self.clen() > 0 ==> r == Some(self.ch()[self.clen() - 1] as usize),
    {
        let h = self.head.len();
        proof {
            assert(h == self.head@.len());
        }
        if h == 0 {
            proof {
                self.lemma_height_zero();
            }
            return None;
        }
        let mut cur: Option<usize> = None;
        let ghost mut cp: int = -1;
        proof {
            assert forall|q: int| -1 < q < self.clen() implies #[trigger] self.lvl(q) < h by {
                assert(self.node_ok(q));
            }
        }
        let mut l = h;
        while l > 0
            invariant
                self.wf(),
                l <= h,
                h == self.head@.len(),
                -1 <= cp < self.clen(),
                cp == -1 <==> cur is None,
                cp >= 0 ==> cur == Some(self.ch()[cp] as usize) && self.lvl(cp) >= l,
                forall|q: int| cp < q < self.clen() ==> #[trigger] self.lvl(q) < l,
            decreases l,
        {
            l -= 1;
            loop
                invariant
                    self.wf(),
                    l < h == self.head@.len(),
                    -1 <= cp < self.clen(),
                    cp == -1 <==> cur is None,
                    cp >= 0 ==> cur == Some(self.ch()[cp] as usize) && self.lvl(cp) >= l,
                ensures
                    -1 <= cp < self.clen(),
                    cp == -1 <==> cur is None,
                    cp >= 0 ==> cur == Some(self.ch()[cp] as usize) && self.lvl(cp) >= l,
                    forall|q: int| cp < q < self.clen() ==> #[trigger] self.lvl(q) < l,
                decreases self.clen() - cp,
            {
                proof {
                    assert(self.link_dom(cp, l as int));
                    assert(self.link_ok(cp, l as int));
                    self.lemma_next_above_props(cp, l as int);
                }
                let nxt: Option<usize> = match cur {
                    None => self.head[l],
                    Some(c) => {
                        proof {
                            assert(self.node_ok(cp));
                            assert(self.nodes@.len() == self.nodes.len());
                            assert(c as int == self.ch()[cp]);
                        }
                        self.nodes[c].as_ref().unwrap().forward[l]
                    },
                };
                let ghost qn = self.next_above(cp, l as int);
                match nxt {
                    None => {
                        break ;
                    },
                    Some(_) => {
                        proof {
                            assert(qn < self.clen());
                            assert(self.node_ok(qn));
                        }
                        cur = nxt;
                        proof {
                            cp = qn;
                        }
                    },
                }
            }
        }
        proof {
            if self.clen() > 0 {
                if cp < self.clen() - 1 {
                    assert(self.node_ok(cp + 1));
                    assert(self.lvl(cp + 1) < 0);
                    assert(false);
                }
            }
        }
        cur
    }

    /// Resolve the start bound: the first chain position whose key satisfies
    /// it, with its node.
    pub(crate) fn front_position(&self, start: &Bound<K>) -> (r: (Option<usize>, Ghost<int>))
        requires
            self.wf(),
        ensures
            0 <= r.1@ <= self.clen(),
            r.1@ < self.clen() ==> r.0 == Some(self.ch()[r.1@] as usize),
            r.1@ == self.clen() ==> r.0 is None,
            forall|q: int|
                0 <= q < self.clen() ==> (start_sat(*start, #[trigger] self.key_at(q)) <==> q
                    >= r.1@),
    {
        let h = self.head.len();
        proof {
            assert(h == self.head@.len());
        }
        if h == 0 {
            proof {
                self.lemma_height_zero();
            }
            return (None, Ghost(0));
        }
        match start {
            Bound::Unbounded => {
                proof {
                    assert(self.link_dom(-1, 0));
                    assert(self.link_ok(-1, 0));
                    self.lemma_next_above_props(-1, 0);
                    if self.clen() > 0 {
                        assert(self.node_ok(0));
                        self.lemma_next_above_is(-1, 0, 0);
                    }
                }
                (self.head[0], Ghost(0))
            },
            Bound::Included(k) => {
                let (preds, gpos) = self.search_preds(k);
                let pd = preds[0];
                let ghost p0 = gpos@[0];
                proof {
                    assert(self.pred_ok(*k, 0, p0, pd));
                    assert(self.link_ok(p0, 0));
                    self.lemma_next_above_props(p0, 0);
                    if p0 + 1 < self.clen() {
                        assert(self.node_ok(p0 + 1));
                        self.lemma_next_above_is(p0, 0, p0 + 1);
                    }
                    assert forall|q: int| 0 <= q < self.clen() implies (start_sat(
                        *start,
                        #[trigger] self.key_at(q),
                    ) <==> q >= p0 + 1) by {
                        if q <= p0 {
                            if q < p0 {
                                assert(self.key_at(q).below(self.key_at(p0)));
                                K::lemma_transitivity(self.key_at(q), self.key_at(p0), *k);
                            }
                        } else {
                            assert(self.node_ok(q));
                            assert(self.lvl(q) >= 0);
                        }
                    }
                }
                let f = self.link_at(pd, Ghost(p0), 0);
                (f, Ghost(p0 + 1))
            },
            Bound::Excluded(k) => {
                let (preds, gpos) = self.search_preds(k);
                let pd = preds[0];
                let ghost p0 = gpos@[0];
                proof {
                    assert(self.pred_ok(*k, 0, p0, pd));
                    assert(self.link_ok(p0, 0));
                    self.lemma_next_above_props(p0, 0);
                    if p0 + 1 < self.clen() {
                        assert(self.node_ok(p0 + 1));
                        self.lemma_next_above_is(p0, 0, p0 + 1);
                    }
                }
                let cand = self.link_at(pd, Ghost(p0), 0);
                match cand {
                    None => {
                        proof {
                            assert forall|q: int| 0 <= q < self.clen() implies !start_sat(
                                *start,
                                #[trigger] self.key_at(q),
                            ) by {
                                assert(self.node_ok(q));
                                assert(self.lvl(q) >= 0);
                                if q <= p0 {
                                    assert(self.key_at(p0).below(*k));
                                    if q < p0 {
                                        assert(self.key_at(q).below(self.key_at(p0)));
                                        K::lemma_transitivity(self.key_at(q), self.key_at(p0), *k);
                                    }
                                    K::lemma_asymmetry(self.key_at(q), *k);
                                } else {
                                    assert(p0 + 1 >= self.clen());
                                    assert(false);
                                }
                            }
                        }
                        (None, Ghost(self.clen()))
                    },
                    Some(ci) => {
                        let ghost qc = p0 + 1;
                        proof {
                            assert(qc < self.clen());
                            assert(self.node_ok(qc));
                            assert(self.nodes@.len() == self.nodes.len());
                            assert(ci as int == self.ch()[qc]);
                        }
                        let cres = {
                            let node = self.node_ref(ci, Ghost(qc));
                            node.key.key_cmp(k)
                        };
                        match cres {
                            KeyCmp::Tied => {
                                // the bound's own key is present: skip it
                                proof {
                                    assert(self.link_dom(qc, 0));
                                    assert(self.link_ok(qc, 0));
                                    self.lemma_next_above_props(qc, 0);
                                    if qc + 1 < self.clen() {
                                        assert(self.node_ok(qc + 1));
                                        self.lemma_next_above_is(qc, 0, qc + 1);
                                    }
                                    assert forall|q: int| 0 <= q < self.clen() implies (start_sat(
                                        *start,
                                        #[trigger] self.key_at(q),
                                    ) <==> q >= qc + 1) by {
                                        assert(self.node_ok(q));
                                        assert(self.lvl(q) >= 0);
                                        if q <= p0 {
                                            assert(self.key_at(p0).below(*k));
                                            if q < p0 {
                                                assert(self.key_at(q).below(self.key_at(p0)));
                                                K::lemma_transitivity(
                                                    self.key_at(q),
                                                    self.key_at(p0),
                                                    *k,
                                                );
                                            }
                                            K::lemma_asymmetry(self.key_at(q), *k);
                                        } else if q == qc {
                                        } else {
                                            assert(self.key_at(qc).below(self.key_at(q)));
                                            crate::order::lemma_tied_below(
                                                *k,
                                                self.key_at(qc),
                                                self.key_at(q),
                                            );
                                        }
                                    }
                                }
                                let f = self.link_at(cand, Ghost(qc), 0);
                                (f, Ghost(qc + 1))
                            },
                            _ => {
                                proof {
                                    assert(!self.key_at(qc).below(*k));
                                    if cres == KeyCmp::Above {
                                        assert((*k).below(self.key_at(qc)));
                                    }
                                    assert((*k).below(self.key_at(qc)));
                                    assert forall|q: int| 0 <= q < self.clen() implies (start_sat(
                                        *start,
                                        #[trigger] self.key_at(q),
                                    ) <==> q >= qc) by {
                                        assert(self.node_ok(q));
                                        assert(self.lvl(q) >= 0);
                                        if q <= p0 {
                                            assert(self.key_at(p0).below(*k));
                                            if q < p0 {
                                                assert(self.key_at(q).below(self.key_at(p0)));
                                                K::lemma_transitivity(
                                                    self.key_at(q),
                                                    self.key_at(p0),
                                                    *k,
                                                );
                                            }
                                            K::lemma_asymmetry(self.key_at(q), *k);
                                        } else if q > qc {
                                            assert(self.key_at(qc).below(self.key_at(q)));
                                            K::lemma_transitivity(
                                                *k,
                                                self.key_at(qc),
                                                self.key_at(q),
                                            );
                                        }
                                    }
                                }
                                (cand, Ghost(qc))
                            },
                        }
                    },
                }
            },
        }
    }

    /// Resolve the end bound: the position right after the last key that
    /// satisfies it, with that last node as the marker.
    pub(crate) fn back_position(&self, end: &Bound<K>) -> (r: (Option<usize>, Ghost<int>))
        requires
            self.wf(),
        ensures
            0 <= r.1@ <= self.clen(),
            r.1@ > 0 ==> r.0 == Some(self.ch()[r.1@ - 1] as usize),
            r.1@ == 0 ==> r.0 is None,
            forall|q: int|
                0 <= q < self.clen() ==> (end_sat(*end, #[trigger] self.key_at(q)) <==> q < r.1@),
    {
        let h = self.head.len();
        proof {
            assert(h == self.head@.len());
        }
        if h == 0 {
            proof {
                self.lemma_height_zero();
            }
            return (None, Ghost(0));
        }
        match end {
            Bound::Unbounded => {
                let b = self.last_node();
                (b, Ghost(self.clen()))
            },
            Bound::Included(k) => {
                let (preds, gpos) = self.search_preds(k);
                let pd = preds[0];
                let ghost p0 = gpos@[0];
                proof {
                    assert(self.pred_ok(*k, 0, p0, pd));
                    assert(self.link_ok(p0, 0));
                    self.lemma_next_above_props(p0, 0);
                    if p0 + 1 < self.clen() {
                        assert(self.node_ok(p0 + 1));
                        self.lemma_next_above_is(p0, 0, p0 + 1);
                    }
                }
                let cand = self.link_at(pd, Ghost(p0), 0);
                let tied_next = match cand {
                    None => false,
                    Some(ci) => {
                        proof {
                            assert(p0 + 1 < self.clen());
                            assert(self.node_ok(p0 + 1));
                            assert(self.nodes@.len() == self.nodes.len());
                            assert(ci as int == self.ch()[p0 + 1]);
                        }
                        let cres = {
                            let node = self.node_ref(ci, Ghost(p0 + 1));
                            node.key.key_cmp(k)
                        };
                        proof {
                            if cres == KeyCmp::Above {
                                assert((*k).below(self.key_at(p0 + 1)));
                            }
                        }
                        match cres {
                            KeyCmp::Tied => true,
                            _ => false,
                        }
                    },
                };
                if tied_next {
                    proof {
                        assert forall|q: int| 0 <= q < self.clen() implies (end_sat(
                            *end,
                            #[trigger] self.key_at(q),
                        ) <==> q < p0 + 2) by {
                            assert(self.node_ok(q));
                            assert(self.lvl(q) >= 0);
                            if q <= p0 {
                                assert(self.key_at(p0).below(*k));
                                if q < p0 {
                                    assert(self.key_at(q).below(self.key_at(p0)));
                                    K::lemma_transitivity(self.key_at(q), self.key_at(p0), *k);
                                }
                                K::lemma_asymmetry(self.key_at(q), *k);
                            } else if q == p0 + 1 {
                            } else {
                                assert(self.key_at(p0 + 1).below(self.key_at(q)));
                                crate::order::lemma_tied_below(
                                    *k,
                                    self.key_at(p0 + 1),
                                    self.key_at(q),
                                );
                            }
                        }
                    }
                    (cand, Ghost(p0 + 2))
                } else {
                    proof {
                        assert forall|q: int| 0 <= q < self.clen() implies (end_sat(
                            *end,
                            #[trigger] self.key_at(q),
                        ) <==> q < p0 + 1) by {
                            assert(self.node_ok(q));
                            assert(self.lvl(q) >= 0);
                            if q <= p0 {
                                assert(self.key_at(p0).below(*k));
                                if q < p0 {
                                    assert(self.key_at(q).below(self.key_at(p0)));
                                    K::lemma_transitivity(self.key_at(q), self.key_at(p0), *k);
                                }
                                K::lemma_asymmetry(self.key_at(q), *k);
                            } else if q == p0 + 1 {
                                assert((*k).below(self.key_at(q)));
                            } else {
                                if p0 + 1 < self.clen() {
                                    assert((*k).below(self.key_at(p0 + 1)));
                                    assert(self.key_at(p0 + 1).below(self.key_at(q)));
                                    K::lemma_transitivity(*k, self.key_at(p0 + 1), self.key_at(q));
                                }
                            }
                        }
                    }
                    (pd, Ghost(p0 + 1))
                }
            },
            Bound::Excluded(k) => {
                let (preds, gpos) = self.search_preds(k);
                let pd = preds[0];
                let ghost p0 = gpos@[0];
                proof {
                    assert(self.pred_ok(*k, 0, p0, pd));
                    assert forall|q: int| 0 <= q < self.clen() implies (end_sat(
                        *end,
                        #[trigger] self.key_at(q),
                    ) <==> q < p0 + 1) by {
                        assert(self.node_ok(q));
                            assert(self.lvl(q) >= 0);
                        if q > p0 {
                            assert(!self.key_at(q).below(*k));
                        } else if q < p0 {
                            assert(self.key_at(q).below(self.key_at(p0)));
                            K::lemma_transitivity(self.key_at(q), self.key_at(p0), *k);
                        }
                    }
                }
                (pd, Ghost(p0 + 1))
            },
        }
    }

    /// A bounded iterator: exactly the pairs of `iter()` whose keys satisfy
    /// both bounds, in the same order. Crossed bounds give an empty range.
    pub fn range(&self, start: Bound<K>, end: Bound<K>) -> (r: Range<'_, K, V>)
        requires
            self.wf(),
        ensures
            r.wf(),
            r.remaining() == range_view(self@, start, end),
    {
        let ghost pred = |p: (K, V)| start_sat(start, p.0) && end_sat(end, p.0);
        proof {
            self.lemma_view_def();
        }
        let (f, glo) = self.front_position(&start);
        let ghost lo = glo@;
        match f {
            None => {
                proof {
                    assert forall|q: int| 0 <= q < self@.len() implies (pred(#[trigger] self@[q])
                        <==> self@.len() <= q < self@.len()) by {
                        assert(self@[q].0 == self.key_at(q));
                    }
                    lemma_filter_window(self@, pred, self@.len() as int, self@.len() as int);
                }
                let r = Range { list: self, cur: None, back: None, pos: Ghost(0), end_pos: Ghost(0) };
                proof {
                    assert(r.remaining() =~= Seq::<(K, V)>::empty());
                }
                r
            },
            Some(fi) => {
                let (b, ghi) = self.back_position(&end);
                let ghost hi = ghi@;
                // an end bound that falls before the first in-range key makes
                // the range empty
                proof {
                    assert(lo < self.clen());
                    assert(self.node_ok(lo));
                    assert(self.nodes@.len() == self.nodes.len());
                }
                let front = self.node_ref(fi, Ghost(lo));
                let nonempty: bool = match &end {
                    Bound::Unbounded => true,
                    Bound::Included(k) => {
                        let cres = k.key_cmp(&front.key);
                        proof {
                            if cres == KeyCmp::Above {
                                K::lemma_asymmetry(self.key_at(lo), *k);
                            }
                        }
                        match cres {
                            KeyCmp::Below => false,
                            _ => true,
                        }
                    },
                    Bound::Excluded(k) => {
                        let cres = front.key.key_cmp(k);
                        proof {
                            if cres == KeyCmp::Above {
                                K::lemma_asymmetry(*k, self.key_at(lo));
                            }
                        }
                        match cres {
                            KeyCmp::Below => true,
                            _ => false,
                        }
                    },
                };
                proof {
                    assert(nonempty == end_sat(end, self.key_at(lo)));
                    assert(nonempty <==> lo < hi);
                    assert forall|q: int| 0 <= q < self@.len() implies (pred(#[trigger] self@[q])
                        <==> lo <= q < (if hi < lo {
                        lo
                    } else {
                        hi
                    })) by {
                        assert(self@[q].0 == self.key_at(q));
                    }
                    lemma_filter_window(self@, pred, lo, if hi < lo {
                        lo
                    } else {
                        hi
                    });
                }
                if nonempty {
                    let r = Range {
                        list: self,
                        cur: Some(fi),
                        back: b,
                        pos: Ghost(lo),
                        end_pos: Ghost(hi),
                    };
                    r
                } else {
                    let r = Range {
                        list: self,
                        cur: None,
                        back: None,
                        pos: Ghost(0),
                        end_pos: Ghost(0),
                    };
                    proof {
                        assert(r.remaining() =~= Seq::<(K, V)>::empty());
                    }
                    r
                }
            },
        }
    }
}


/// A bounded forward pass that lends out each value mutably: `(&K, &mut V)`
/// for the keys inside the bounds, one entry per call of `next`, in ascending
/// key order. Keys and the shape of the list cannot change through it, only
/// the values of the yielded entries.
pub struct RangeMut<'a, K, V> {
    /// The borrowed list. Public so that contracts can relate the list's
    /// final contents to what is written through the yielded borrows.
    pub list: &'a mut SkipList<K, V>,
    /// The arena index of the next node to yield.
    pub cur: Option<usize>,
    /// The arena index of the last node to yield: the boundary marker.
    pub back: Option<usize>,
    /// The chain position where the range started.
    pub start_pos: Ghost<int>,
    /// The chain position of the next node to yield.
    pub pos: Ghost<int>,
    /// The chain position just past the last node to yield.
    pub end_pos: Ghost<int>,
}

impl<'a, K: OrderedKey, V> RangeMut<'a, K, V> {
    pub closed spec fn wf(&self) -> bool {
        &&& (*self.list).wf()
        &&& 0 <= self.start_pos@ <= self.pos@ <= self.end_pos@ <= (*self.list).clen()
        &&& (self.pos@ < self.end_pos@ ==> self.cur == Some(
            (*self.list).ch()[self.pos@] as usize,
        ) && self.back == Some((*self.list).ch()[self.end_pos@ - 1] as usize))
        &&& (self.pos@ == self.end_pos@ ==> self.cur is None || self.back is None)
    }

    /// The pairs not yet yielded, in order, as the list currently holds them.
    pub closed spec fn remaining(&self) -> Seq<(K, V)> {
        (*self.list)@.subrange(self.pos@, self.end_pos@)
    }

    /// The pairs already yielded, in order, as the list currently holds them.
    pub closed spec fn done(&self) -> Seq<(K, V)> {
        (*self.list)@.subrange(self.start_pos@, self.pos@)
    }

    /// Lend out the next pair inside the bounds, or `None` past the marker.
    /// What the caller writes through the value borrow replaces that entry's
    /// value; the entries not yet reached stay as they were.
    pub fn next(&mut self) -> (r: Option<(&K, &mut V)>)
        requires
            old(self).wf(),
        ensures
            final(self).wf(),
            old(self).remaining().len() == 0 ==> r is None && final(self).remaining() == old(
                self,
            ).remaining() && final(self).done() == old(self).done(),
            old(self).remaining().len() > 0 ==> (r matches Some(kv) && *kv.0 == old(
                self,
            ).remaining()[0].0 && *kv.1 == old(self).remaining()[0].1 && final(self).remaining()
                == old(self).remaining().subrange(1, old(self).remaining().len() as int)
                && final(self).done() == old(self).done().push(
                (old(self).remaining()[0].0, *final(kv.1)),
            )),
    {
        match self.back {
            None => {
                proof {
                    (*self.list).lemma_view_def();
                }
                None
            },
            Some(b) => {
                match self.cur {
                    None => {
                        proof {
                            (*self.list).lemma_view_def();
                        }
                        None
                    },
                    Some(i) => {
                        let ghost p = self.pos@;
                        proof {
                            (*self.list).lemma_view_def();
                            assert(p < self.end_pos@);
                            assert((*self.list).node_ok(p));
                            assert((*self.list).nodes@.len() == self.list.nodes.len());
                        }
                        let nxt = {
                            let node = self.list.node_ref(i, Ghost(p));
                            node.forward[0]
                        };
                        if i == b {
                            proof {
                                assert((*self.list).node_ok(self.end_pos@ - 1));
                                if p < self.end_pos@ - 1 {
                                    assert((*self.list).ch()[p] != (*self.list).ch()[self.end_pos@
                                        - 1]);
                                    assert(false);
                                }
                                assert(p == self.end_pos@ - 1);
                            }
                            self.cur = None;
                        } else {
                            proof {
                                assert((*self.list).link_dom(p, 0));
                                assert((*self.list).link_ok(p, 0));
                                (*self.list).lemma_next_above_props(p, 0);
                                assert(p != self.end_pos@ - 1);
                                assert(p + 1 < (*self.list).clen());
                                assert((*self.list).node_ok(p + 1));
                                (*self.list).lemma_next_above_is(p, 0, p + 1);
                            }
                            self.cur = nxt;
                        }
                        let (k, v) = self.list.entry_mut(i, Ghost(p));
                        proof {
                            self.pos = Ghost(p + 1);
                        }
                        Some((k, v))
                    },
                }
            },
        }
    }
}

impl<K: OrderedKey, V> SkipList<K, V> {
    /// A bounded, mutably lending iterator: exactly the pairs of `iter()`
    /// whose keys satisfy both bounds, in the same order, with each value
    /// editable in place. The list afterwards holds whatever was written
    /// through it. Crossed bounds give an empty range.
    pub fn range_mut<'a>(&'a mut self, start: Bound<K>, end: Bound<K>) -> (it: RangeMut<'a, K, V>)
        requires
            old(self).wf(),
        ensures
            it.wf(),
            *it.list == *old(self),
            it.remaining() == range_view(old(self)@, start, end),
            it.done() == Seq::<(K, V)>::empty(),
            *final(self) == *final(it.list),
    {
        let ghost pred = |p: (K, V)| start_sat(start, p.0) && end_sat(end, p.0);
        proof {
            self.lemma_view_def();
        }
        let (f, glo) = self.front_position(&start);
        let ghost lo = glo@;
        match f {
            None => {
                proof {
                    assert forall|q: int| 0 <= q < self@.len() implies (pred(#[trigger] self@[q])
                        <==> self@.len() <= q < self@.len()) by {
                        assert(self@[q].0 == self.key_at(q));
                    }
                    lemma_filter_window(self@, pred, self@.len() as int, self@.len() as int);
                }
                let it = RangeMut {
                    list: self,
                    cur: None,
                    back: None,
                    start_pos: Ghost(0),
                    pos: Ghost(0),
                    end_pos: Ghost(0),
                };
                proof {
                    assert(it.remaining() =~= Seq::<(K, V)>::empty());
                    assert(it.done() =~= Seq::<(K, V)>::empty());
                }
                it
            },
            Some(fi) => {
                let (b, ghi) = self.back_position(&end);
                let ghost hi = ghi@;
                proof {
                    assert(lo < self.clen());
                    assert(self.node_ok(lo));
                    assert(self.nodes@.len() == self.nodes.len());
                }
                let nonempty: bool = {
                    let front = self.node_ref(fi, Ghost(lo));
                    match &end {
                        Bound::Unbounded => true,
                        Bound::Included(k) => {
                            let cres = k.key_cmp(&front.key);
                            proof {
                                if cres == KeyCmp::Above {
                                    K::lemma_asymmetry(self.key_at(lo), *k);
                                }
                            }
                            match cres {
                                KeyCmp::Below => false,
                                _ => true,
                            }
                        },
                        Bound::Excluded(k) => {
                            let cres = front.key.key_cmp(k);
                            proof {
                                if cres == KeyCmp::Above {
                                    K::lemma_asymmetry(*k, self.key_at(lo));
                                }
                            }
                            match cres {
                                KeyCmp::Below => true,
                                _ => false,
                            }
                        },
                    }
                };
                proof {
                    assert(nonempty == end_sat(end, self.key_at(lo)));
                    assert(nonempty <==> lo < hi);
                    assert forall|q: int| 0 <= q < self@.len() implies (pred(#[trigger] self@[q])
                        <==> lo <= q < (if hi < lo {
                        lo
                    } else {
                        hi
                    })) by {
                        assert(self@[q].0 == self.key_at(q));
                    }
                    lemma_filter_window(self@, pred, lo, if hi < lo {
                        lo
                    } else {
                        hi
                    });
                }
                if nonempty {
                    let it = RangeMut {
                        list: self,
                        cur: Some(fi),
                        back: b,
                        start_pos: Ghost(lo),
                        pos: Ghost(lo),
                        end_pos: Ghost(hi),
                    };
                    proof {
                        assert(it.done() =~= Seq::<(K, V)>::empty());
                    }
                    it
                } else {
                    let it = RangeMut {
                        list: self,
                        cur: None,
                        back: None,
                        start_pos: Ghost(0),
                        pos: Ghost(0),
                        end_pos: Ghost(0),
                    };
                    proof {
                        assert(it.remaining() =~= Seq::<(K, V)>::empty());
                        assert(it.done() =~= Seq::<(K, V)>::empty());
                    }
                    it
                }
            },
        }
    }
}

} // verus!
