//! Forward iteration over the owning chain.
//!
//! The iterators are not resumable mid-pass by cloning; restarting means
//! calling the constructor again. `Iter` borrows the list and yields
//! references; `IntoIter` consumes the list and yields the pairs by value,
//! vacating each node's slot as it goes.

use vstd::prelude::*;

use crate::order::OrderedKey;
use crate::skip::SkipList;

verus! {

/// A forward pass over the list, yielding `(&K, &V)` in ascending key order.
pub struct Iter<'a, K, V> {
    pub(crate) list: &'a SkipList<K, V>,
    pub(crate) cur: Option<usize>,
    pub(crate) pos: Ghost<int>,
}

impl<'a, K: OrderedKey, V> Iter<'a, K, V> {
    pub closed spec fn wf(&self) -> bool {
        &&& self.list.wf()
        &&& 0 <= self.pos@ <= self.list.clen()
        &&& (self.pos@ < self.list.clen() ==> self.cur == Some(self.list.ch()[self.pos@] as usize))
        &&& (self.pos@ == self.list.clen() ==> self.cur is None)
    }

    /// The pairs not yet yielded, in order.
    pub closed spec fn remaining(&self) -> Seq<(K, V)> {
        self.list@.subrange(self.pos@, self.list@.len() as int)
    }

    /// Yield the next pair, or `None` at the end of the chain.
    pub fn next(&mut self) -> (r: Option<(&'a K, &'a V)>)
        requires
            old(self).wf(),
        ensures
            final(self).wf(),
            old(self).remaining().len() == 0 ==> r is None && final(self).remaining()
                == old(self).remaining(),
            old(self).remaining().len() > 0 ==> (r matches Some(kv) && *kv.0 == old(
                self,
            ).remaining()[0].0 && *kv.1 == old(self).remaining()[0].1 && final(self).remaining()
                == old(self).remaining().subrange(1, old(self).remaining().len() as int)),
    {
        match self.cur {
            None => {
                proof {
                    self.list.lemma_view_def();
                }
                None
            },
            Some(i) => {
                let ghost p = self.pos@;
                proof {
                    self.list.lemma_view_def();
                    assert(p < self.list.clen());
                    assert(self.list.node_ok(p));
                    assert(self.list.nodes@.len() == self.list.nodes.len());
                }
                let node = self.list.node_ref(i, Ghost(p));
                proof {
                    assert(self.list.link_dom(p, 0));
                    assert(self.list.link_ok(p, 0));
                    self.list.lemma_next_above_props(p, 0);
                    if p + 1 < self.list.clen() {
                        assert(self.list.node_ok(p + 1));
                        self.list.lemma_next_above_is(p, 0, p + 1);
                    }
                }
                self.cur = node.forward[0];
                proof {
                    self.pos = Ghost(p + 1);
                    assert(self.remaining() =~= old(self).remaining().subrange(
                        1,
                        old(self).remaining().len() as int,
                    ));
                }
                Some((&node.key, &node.value))
            },
        }
    }
}

/// A consuming pass: the nodes' slots are vacated one by one and the pairs
/// handed out by value, in ascending key order.
pub struct IntoIter<K, V> {
    pub(crate) list: SkipList<K, V>,
    pub(crate) cur: Option<usize>,
    pub(crate) rest: Ghost<Seq<int>>,
}

impl<K: OrderedKey, V> IntoIter<K, V> {
    pub closed spec fn wf(&self) -> bool {
        &&& forall|j: int|
            0 <= j < self.rest@.len() ==> 0 <= #[trigger] self.rest@[j]
                < self.list.nodes@.len() && self.list.nodes@[self.rest@[j]] is Some
                && self.list.nodes@[self.rest@[j]]->0.forward@.len() >= 1
        &&& forall|j: int, j2: int|
            0 <= j < j2 < self.rest@.len() ==> self.rest@[j] != self.rest@[j2]
        &&& forall|j: int|
            0 <= j < self.rest@.len() ==> #[trigger] self.list.nodes@[self.rest@[j]]->0.forward@[0]
                == (if j + 1 < self.rest@.len() {
                Some(self.rest@[j + 1] as usize)
            } else {
                None
            })
        &&& (self.rest@.len() > 0 ==> self.cur == Some(self.rest@[0] as usize))
        &&& (self.rest@.len() == 0 ==> self.cur is None)
    }

    /// The pairs not yet yielded, in order.
    pub closed spec fn remaining(&self) -> Seq<(K, V)> {
        Seq::new(
            self.rest@.len(),
            |j: int|
                (
                    self.list.nodes@[self.rest@[j]]->0.key,
                    self.list.nodes@[self.rest@[j]]->0.value,
                ),
        )
    }

    /// Yield the next pair by value, or `None` at the end of the chain.
    pub fn next(&mut self) -> (r: Option<(K, V)>)
        requires
            old(self).wf(),
        ensures
            final(self).wf(),
            old(self).remaining().len() == 0 ==> r is None && final(self).remaining()
                == old(self).remaining(),
            old(self).remaining().len() > 0 ==> r == Some(old(self).remaining()[0]) && final(self).remaining() == old(self).remaining().subrange(
                1,
                old(self).remaining().len() as int,
            ),
    {
        match self.cur {
            None => None,
            Some(i) => {
                proof {
                    assert(self.list.nodes@.len() == self.list.nodes.len());
                    assert(self.rest@.len() > 0);
                    assert(self.rest@[0] == i);
                }
                let slot = &mut self.list.nodes[i];
                let node = slot.take().unwrap();
                self.cur = node.forward[0];
                proof {
                    let ghost pre = *old(self);
                    self.rest = Ghost(pre.rest@.subrange(1, pre.rest@.len() as int));
                    assert forall|j: int| 0 <= j < self.rest@.len() implies 0
                        <= #[trigger] self.rest@[j] < self.list.nodes@.len()
                        && self.list.nodes@[self.rest@[j]] is Some
                        && self.list.nodes@[self.rest@[j]]->0.forward@.len() >= 1 by {
                        assert(pre.rest@[j + 1] == self.rest@[j]);
                        assert(pre.rest@[j + 1] != pre.rest@[0]);
                    }
                    assert forall|j: int| 0 <= j < self.rest@.len() implies #[trigger] self.list.nodes@[self.rest@[j]]->0.forward@[0]
                        == (if j + 1 < self.rest@.len() {
                        Some(self.rest@[j + 1] as usize)
                    } else {
                        None
                    }) by {
                        assert(pre.rest@[j + 1] != pre.rest@[0]);
                        assert(pre.list.nodes@[pre.rest@[j + 1]]->0.forward@[0] == (if j + 2
                            < pre.rest@.len() {
                            Some(pre.rest@[j + 2] as usize)
                        } else {
                            None
                        }));
                    }
                    assert(self.remaining() =~= old(self).remaining().subrange(
                        1,
                        old(self).remaining().len() as int,
                    ));
                }
                Some((node.key, node.value))
            },
        }
    }
}

impl<K: OrderedKey, V> SkipList<K, V> {
    /// A borrowing iterator over all pairs, first key first.
    pub fn iter<'a>(&'a self) -> (it: Iter<'a, K, V>)
        requires
            self.wf(),
        ensures
            it.wf(),
            it.remaining() == self@,
    {
        let h = self.head.len();
        proof {
            self.lemma_view_def();
            assert(h == self.head@.len());
        }
        let cur = if h == 0 {
            proof {
                self.lemma_height_zero();
            }
            None
        } else {
            proof {
                assert(self.link_dom(-1, 0));
                assert(self.link_ok(-1, 0));
                self.lemma_next_above_props(-1, 0);
                if self.clen() > 0 {
                    assert(self.node_ok(0));
                    self.lemma_next_above_is(-1, 0, 0);
                }
            }
            self.head[0]
        };
        let it = Iter { list: self, cur, pos: Ghost(0) };
        proof {
            assert(it.remaining() =~= self@);
        }
        it
    }

    /// A consuming iterator over all pairs, first key first.
    pub fn into_iter(self) -> (it: IntoIter<K, V>)
        requires
            self.wf(),
        ensures
            it.wf(),
            it.remaining() == self@,
    {
        let h = self.head.len();
        proof {
            self.lemma_view_def();
            assert(h == self.head@.len());
        }
        let cur = if h == 0 {
            proof {
                self.lemma_height_zero();
            }
            None
        } else {
            proof {
                assert(self.link_dom(-1, 0));
                assert(self.link_ok(-1, 0));
                self.lemma_next_above_props(-1, 0);
                if self.clen() > 0 {
                    assert(self.node_ok(0));
                    self.lemma_next_above_is(-1, 0, 0);
                }
            }
            self.head[0]
        };
        let ghost rest = self.ch();
        proof {
            assert forall|j: int| 0 <= j < rest.len() implies #[trigger] self.nodes@[rest[j]]->0.forward@[0]
                == (if j + 1 < rest.len() {
                Some(rest[j + 1] as usize)
            } else {
                None
            }) by {
                assert(self.node_ok(j));
                assert(self.link_dom(j, 0));
                assert(self.link_ok(j, 0));
                self.lemma_next_above_props(j, 0);
                if j + 1 < rest.len() {
                    assert(self.node_ok(j + 1));
                    self.lemma_next_above_is(j, 0, j + 1);
                }
            }
            assert forall|j: int| 0 <= j < rest.len() implies 0 <= #[trigger] rest[j]
                < self.nodes@.len() && self.nodes@[rest[j]] is Some
                && self.nodes@[rest[j]]->0.forward@.len() >= 1 by {
                assert(self.node_ok(j));
            }
        }
        let it = IntoIter { list: self, cur, rest: Ghost(rest) };
        proof {
            assert(it.remaining() =~= it.list@);
        }
        it
    }
}


/// A forward pass that lends out each value mutably: `(&K, &mut V)`, one
/// entry per call of `next`, in ascending key order. The keys and the shape
/// of the list cannot change through it, only the values.
pub struct IterMut<'a, K, V> {
    /// The borrowed list. Public so that contracts can relate the list's
    /// final contents to what is written through the yielded borrows.
    pub list: &'a mut SkipList<K, V>,
    /// The arena index of the next node to yield.
    pub cur: Option<usize>,
    /// The chain position of the next node to yield.
    pub pos: Ghost<int>,
}

impl<'a, K: OrderedKey, V> IterMut<'a, K, V> {
    pub closed spec fn wf(&self) -> bool {
        &&& (*self.list).wf()
        &&& 0 <= self.pos@ <= (*self.list).clen()
        &&& (self.pos@ < (*self.list).clen() ==> self.cur == Some(
            (*self.list).ch()[self.pos@] as usize,
        ))
        &&& (self.pos@ == (*self.list).clen() ==> self.cur is None)
    }

    /// The pairs not yet yielded, in order, as the list currently holds them.
    pub closed spec fn remaining(&self) -> Seq<(K, V)> {
        (*self.list)@.subrange(self.pos@, (*self.list)@.len() as int)
    }

    /// The pairs already yielded, in order, as the list currently holds them.
    pub closed spec fn done(&self) -> Seq<(K, V)> {
        (*self.list)@.subrange(0, self.pos@)
    }

    /// Lend out the next pair, or `None` at the end of the chain. What the
    /// caller writes through the value borrow replaces that entry's value;
    /// the entries not yet reached stay as they were.
    pub fn next(&mut self) -> (r: Option<(&K, &mut V)>)
        requires
            old(self).wf(),
        ensures
            final(self).wf(),
            old(self).remaining().len() == 0 ==> r is None && final(self).remaining() == old(
                self,
            ).remaining() && final(self).done() == old(self).done(),
            old(self).remaining().len() > 0 ==> (r matches Some(kv) && *kv.0 == old(
                self,
            ).remaining()[0].0 && *kv.1 == old(self).remaining()[0].1 && final(self).remaining()
                == old(self).remaining().subrange(1, old(self).remaining().len() as int)
                && final(self).done() == old(self).done().push(
                (old(self).remaining()[0].0, *final(kv.1)),
            )),
    {
        match self.cur {
            None => {
                proof {
                    (*self.list).lemma_view_def();
                }
                None
            },
            Some(i) => {
                let ghost p = self.pos@;
                proof {
                    (*self.list).lemma_view_def();
                    assert(p < (*self.list).clen());
                    assert((*self.list).node_ok(p));
                    assert((*self.list).nodes@.len() == self.list.nodes.len());
                }
                let nxt = {
                    let node = self.list.node_ref(i, Ghost(p));
                    node.forward[0]
                };
                proof {
                    assert((*self.list).link_dom(p, 0));
                    assert((*self.list).link_ok(p, 0));
                    (*self.list).lemma_next_above_props(p, 0);
                    if p + 1 < (*self.list).clen() {
                        assert((*self.list).node_ok(p + 1));
                        (*self.list).lemma_next_above_is(p, 0, p + 1);
                    }
                }
                let (k, v) = self.list.entry_mut(i, Ghost(p));
                self.cur = nxt;
                proof {
                    self.pos = Ghost(p + 1);
                }
                Some((k, v))
            },
        }
    }
}

impl<K: OrderedKey, V> SkipList<K, V> {
    /// A mutably lending iterator over all pairs, first key first: values may
    /// be edited in place, keys and order are fixed. The list afterwards
    /// holds whatever was written through the iterator.
    pub fn iter_mut<'a>(&'a mut self) -> (it: IterMut<'a, K, V>)
        requires
            old(self).wf(),
        ensures
            it.wf(),
            *it.list == *old(self),
            it.remaining() == old(self)@,
            it.done() == Seq::<(K, V)>::empty(),
            *final(self) == *final(it.list),
    {
        let h = self.head.len();
        proof {
            self.lemma_view_def();
            assert(h == self.head@.len());
        }
        let cur = if h == 0 {
            proof {
                self.lemma_height_zero();
            }
            None
        } else {
            proof {
                assert(self.link_dom(-1, 0));
                assert(self.link_ok(-1, 0));
                self.lemma_next_above_props(-1, 0);
                if self.clen() > 0 {
                    assert(self.node_ok(0));
                    self.lemma_next_above_is(-1, 0, 0);
                }
            }
            self.head[0]
        };
        let it = IterMut { list: self, cur, pos: Ghost(0) };
        proof {
            assert(it.remaining() =~= (*it.list)@);
            assert(it.done() =~= Seq::<(K, V)>::empty());
        }
        it
    }
}

} // verus!
