//! Bounded top-K selection: a fixed-capacity structure that retains, of all
//! items fed to it, the `cap` ones with the largest counts, keeping the
//! smallest retained count accessible at the front.

use vstd::prelude::*;
use vstd::multiset::Multiset;
use crate::item::CountItem;
use crate::item::models_of;

verus! {

/// A sequence of item models sorted by ascending count.
pub open spec fn sorted_asc(s: Seq<(Seq<u8>, u64)>) -> bool {
    forall|i: int, j: int| 0 <= i < j < s.len() ==> s[i].1 <= s[j].1
}

/// A sequence of item models sorted by descending count.
pub open spec fn sorted_desc(s: Seq<(Seq<u8>, u64)>) -> bool {
    forall|i: int, j: int| 0 <= i < j < s.len() ==> s[i].1 >= s[j].1
}

/// Inserting an element anywhere in a sequence adds it to the multiset.
pub proof fn lemma_to_multiset_insert(s: Seq<(Seq<u8>, u64)>, i: int, x: (Seq<u8>, u64))
    requires
        0 <= i <= s.len(),
    ensures
        s.insert(i, x).to_multiset() == s.to_multiset().insert(x),
{
    broadcast use vstd::seq_lib::group_to_multiset_ensures;
    broadcast use vstd::multiset::group_multiset_axioms;

    let big = s.insert(i, x);
    assert(big.remove(i) =~= s);
    assert(big[i] == x);
    assert(big.contains(x));
    assert(big.to_multiset().count(x) > 0);
    assert(big.remove(i).to_multiset() =~= big.to_multiset().remove(x));
    assert(big.to_multiset() =~= s.to_multiset().insert(x));
}

/// The fixed-capacity selector. Feeding it a stream of items retains the
/// `cap` items with the largest counts; everything it has ever discarded
/// is recorded as a ghost multiset, so that what it holds can be related
/// to everything it has processed.
pub struct TopK {
    cap: usize,
    items: Vec<CountItem>,
    discarded: Ghost<Multiset<(Seq<u8>, u64)>>,
}

impl TopK {
    /// The capacity K the selector was built with.
    pub closed spec fn capacity(self) -> int {
        self.cap as int
    }

    /// The models of the retained items, sorted by ascending count.
    pub closed spec fn retained(self) -> Seq<(Seq<u8>, u64)> {
        models_of(self.items@)
    }

    /// The models of every item discarded so far.
    pub closed spec fn discarded_ms(self) -> Multiset<(Seq<u8>, u64)> {
        self.discarded@
    }

    /// Everything ever fed to the selector: retained plus discarded.
    pub open spec fn processed(self) -> Multiset<(Seq<u8>, u64)> {
        self.retained().to_multiset().add(self.discarded_ms())
    }

    /// Well-formedness: never over capacity, sorted ascending with the
    /// smallest retained count at the front, and nothing discarded unless
    /// the selector was full and the discarded count was no greater than
    /// the smallest retained one.
    pub closed spec fn wf(self) -> bool {
        &&& self.items@.len() <= self.cap
        &&& sorted_asc(models_of(self.items@))
        &&& forall|d: (Seq<u8>, u64)|
            #[trigger] self.discarded@.count(d) > 0 ==> {
                &&& self.items@.len() == self.cap
                &&& self.cap > 0 ==> d.1 <= self.items@[0].cnt
            }
    }

    /// A fresh selector of capacity `cap` holding nothing.
    pub fn new(cap: usize) -> (s: TopK)
        ensures
            s.wf(),
            s.capacity() == cap,
            s.processed() == Multiset::<(Seq<u8>, u64)>::empty(),
    {
        let s = TopK { cap, items: Vec::new(), discarded: Ghost(Multiset::empty()) };
        proof {
            broadcast use vstd::seq_lib::group_to_multiset_ensures;
            broadcast use vstd::multiset::group_multiset_axioms;

            assert(models_of(s.items@) =~= Seq::<(Seq<u8>, u64)>::empty());
            assert(s.processed() =~= Multiset::<(Seq<u8>, u64)>::empty());
        }
        s
    }

    /// The number of retained items.
    pub fn len(&self) -> (r: usize)
        ensures
            r == self.retained().len(),
    {
        self.items.len()
    }

    /// The first index whose count exceeds `c`, i.e. where an item of count
    /// `c` belongs in the ascending order.
    fn sorted_pos(items: &Vec<CountItem>, c: u64) -> (p: usize)
        requires
            sorted_asc(models_of(items@)),
        ensures
            p <= items@.len(),
            forall|i: int| 0 <= i < p ==> items@[i].cnt <= c,
            p < items@.len() ==> items@[p as int].cnt > c,
    {
        let mut p: usize = 0;
        while p < items.len() && items[p].cnt <= c
            invariant
                p <= items@.len(),
                forall|i: int| 0 <= i < p ==> items@[i].cnt <= c,
            decreases items@.len() - p,
        {
            p += 1;
        }
        p
    }

    /// Feed one item: kept outright while below capacity; once full, it
    /// replaces the smallest retained item exactly when its count is
    /// strictly greater, and is discarded otherwise.
    pub fn insert(&mut self, item: CountItem)
        requires
            old(self).wf(),
        ensures
            final(self).wf(),
            final(self).capacity() == old(self).capacity(),
            final(self).processed() == old(self).processed().insert(item@),
    {
        proof {
            broadcast use vstd::seq_lib::group_to_multiset_ensures;
            broadcast use vstd::multiset::group_multiset_axioms;
        }
        let ghost pre = *self;
        if self.items.len() < self.cap {
            let p = Self::sorted_pos(&self.items, item.cnt);
            proof {
                lemma_to_multiset_insert(models_of(self.items@), p as int, item@);
            }
            self.items.insert(p, item);
            proof {
                assert(models_of(self.items@) =~= models_of(pre.items@).insert(p as int, item@));
                assert(sorted_asc(models_of(self.items@))) by {
                    let m = models_of(self.items@);
                    let o = models_of(pre.items@);
                    assert forall|i: int, j: int| 0 <= i < j < m.len() implies m[i].1 <= m[j].1 by {
                        if j < p {
                            assert(m[i] == o[i] && m[j] == o[j]);
                        } else if i > p {
                            assert(m[i] == o[i - 1] && m[j] == o[j - 1]);
                        } else if i < p && j == p {
                            assert(m[i] == o[i] && m[j] == item@);
                        } else if i == p {
                            assert(m[i] == item@ && m[j] == o[j - 1]);
                            assert(o[j - 1].1 > item.cnt);
                        } else {
                            assert(i < p && j > p);
                            assert(m[i] == o[i] && m[j] == o[j - 1]);
                            assert(p < o.len());
                            assert(o[p as int].1 == pre.items@[p as int].cnt);
                            assert(o[p as int].1 > item.cnt);
                            if j - 1 > p {
                                assert(o[p as int].1 <= o[j - 1].1);
                            }
                            assert(o[i].1 == pre.items@[i].cnt);
                            assert(o[i].1 <= item.cnt);
                        }
                    }
                }
                assert(forall|d: (Seq<u8>, u64)| self.discarded@.count(d) > 0 ==> false) by {
                    assert(self.discarded@ == pre.discarded@);
                    assert forall|d: (Seq<u8>, u64)| #[trigger] pre.discarded@.count(d) > 0 implies false by {
                        assert(pre.items@.len() == pre.cap);
                        assert(pre.items@.len() < pre.cap);
                    }
                }
                assert(final(self).processed() =~= pre.processed().insert(item@));
            }
        } else if self.cap == 0 {
            proof {
                assert(self.items@.len() == 0);
            }
            self.discarded = Ghost(self.discarded@.insert(item@));
            proof {
                assert(final(self).processed() =~= pre.processed().insert(item@));
            }
        } else if item.cnt > self.items[0].cnt {
            let dropped = self.items.remove(0);
            let ghost mid = self.items@;
            proof {
                assert(models_of(mid) =~= models_of(pre.items@).remove(0));
                assert(models_of(pre.items@).remove(0).to_multiset()
                    == models_of(pre.items@).to_multiset().remove(models_of(pre.items@)[0]));
                assert(sorted_asc(models_of(mid))) by {
                    let m = models_of(mid);
                    let o = models_of(pre.items@);
                    assert forall|i: int, j: int| 0 <= i < j < m.len() implies m[i].1 <= m[j].1 by {
                        assert(m[i] == o[i + 1] && m[j] == o[j + 1]);
                    }
                }
            }
            let p = Self::sorted_pos(&self.items, item.cnt);
            proof {
                lemma_to_multiset_insert(models_of(self.items@), p as int, item@);
            }
            self.items.insert(p, item);
            self.discarded = Ghost(self.discarded@.insert(dropped@));
            proof {
                assert(models_of(self.items@) =~= models_of(mid).insert(p as int, item@));
                assert(sorted_asc(models_of(self.items@))) by {
                    let m = models_of(self.items@);
                    let o = models_of(mid);
                    assert forall|i: int, j: int| 0 <= i < j < m.len() implies m[i].1 <= m[j].1 by {
                        if j < p {
                            assert(m[i] == o[i] && m[j] == o[j]);
                        } else if i > p {
                            assert(m[i] == o[i - 1] && m[j] == o[j - 1]);
                        } else if i < p && j == p {
                            assert(m[i] == o[i] && m[j] == item@);
                            assert(o[i].1 == mid[i].cnt);
                        } else if i == p {
                            assert(m[i] == item@ && m[j] == o[j - 1]);
                            assert(p < o.len());
                            assert(o[p as int].1 == mid[p as int].cnt);
                            assert(o[p as int].1 > item.cnt);
                            if j - 1 > p {
                                assert(o[p as int].1 <= o[j - 1].1);
                            }
                        } else {
                            assert(i < p && j > p);
                            assert(m[i] == o[i] && m[j] == o[j - 1]);
                            assert(p < o.len());
                            assert(o[p as int].1 == mid[p as int].cnt);
                            assert(o[p as int].1 > item.cnt);
                            if j - 1 > p {
                                assert(o[p as int].1 <= o[j - 1].1);
                            }
                            assert(o[i].1 == mid[i].cnt);
                            assert(o[i].1 <= item.cnt);
                        }
                    }
                }
                // the new front is no smaller than anything ever discarded
                assert(self.items@.len() == self.cap);
                let newmin = self.items@[0].cnt;
                assert(newmin >= pre.items@[0].cnt) by {
                    if p == 0 {
                        assert(self.items@[0] == item);
                    } else {
                        assert(models_of(self.items@)[0] == models_of(mid)[0]);
                        assert(models_of(mid)[0] == models_of(pre.items@)[1]);
                        assert(sorted_asc(models_of(pre.items@)));
                        assert(models_of(pre.items@)[0].1 <= models_of(pre.items@)[1].1);
                    }
                }
                assert(dropped@.1 == models_of(pre.items@)[0].1);
                assert(final(self).processed() =~= pre.processed().insert(item@));
            }
        } else {
            self.discarded = Ghost(self.discarded@.insert(item@));
            proof {
                assert(final(self).processed() =~= pre.processed().insert(item@));
            }
        }
    }

    /// Consume the selector, yielding the retained items in descending
    /// count order.
    pub fn drain_descending(self) -> (out: Vec<CountItem>)
        requires
            self.wf(),
        ensures
            out@.len() == self.retained().len(),
            models_of(out@).to_multiset() == self.retained().to_multiset(),
            sorted_desc(models_of(out@)),
    {
        let mut items = self.items;
        let ghost orig = items@;
        let mut out: Vec<CountItem> = Vec::new();
        while items.len() > 0
            invariant
                out@.len() + items@.len() == orig.len(),
                items@ == orig.take(items@.len() as int),
                forall|idx: int| 0 <= idx < out@.len() ==> out@[idx] == orig[orig.len() - 1 - idx],
            decreases items@.len(),
        {
            let x = items.remove(items.len() - 1);
            proof {
                assert(orig.take(items@.len() as int + 1).remove(items@.len() as int)
                    =~= orig.take(items@.len() as int));
                assert(x == orig[items@.len() as int]);
            }
            out.push(x);
        }
        proof {
            broadcast use vstd::seq_lib::group_to_multiset_ensures;

            assert(models_of(out@) =~= models_of(orig).reverse());
            models_of(orig).lemma_reverse_to_multiset();
            assert(models_of(out@).to_multiset() == models_of(orig).to_multiset());
            assert(sorted_desc(models_of(out@))) by {
                let m = models_of(out@);
                let o = models_of(orig);
                assert(sorted_asc(o));
                assert forall|i: int, j: int| 0 <= i < j < m.len() implies m[i].1 >= m[j].1 by {
                    assert(m[i] == o[o.len() - 1 - i] && m[j] == o[o.len() - 1 - j]);
                }
            }
        }
        out
    }

    /// The selector retains exactly `min(capacity, processed)` items, and
    /// nothing it has processed beyond what it retains has a count greater
    /// than any retained one: what it holds is a true top-K of everything
    /// fed to it, up to ties among equal counts.
    pub proof fn lemma_top_k_correct(self)
        requires
            self.wf(),
        ensures
            self.retained().to_multiset().subset_of(self.processed()),
            self.retained().len() == if self.processed().len() <= self.capacity() {
                self.processed().len() as int
            } else {
                self.capacity()
            },
            sorted_asc(self.retained()),
            forall|d: (Seq<u8>, u64)|
                #[trigger] self.processed().count(d) > self.retained().to_multiset().count(d)
                    ==> self.retained().len() == self.capacity()
                        && forall|j: int| 0 <= j < self.retained().len()
                            ==> d.1 <= self.retained()[j].1,
    {
        broadcast use vstd::seq_lib::group_to_multiset_ensures;
        broadcast use vstd::multiset::group_multiset_axioms;

        let r = self.retained();
        let rms = r.to_multiset();
        assert(rms.len() == r.len());
        assert(self.processed().len() == rms.len() + self.discarded@.len());
        if self.discarded@.len() > 0 {
            let w = self.discarded@.choose();
            assert(self.discarded@.count(w) > 0);
            assert(self.items@.len() == self.cap);
        }
        assert forall|d: (Seq<u8>, u64)|
            #[trigger] self.processed().count(d) > rms.count(d)
            implies r.len() == self.capacity()
                && forall|j: int| 0 <= j < r.len() ==> d.1 <= r[j].1 by {
            assert(self.discarded@.count(d) > 0);
            assert(self.items@.len() == self.cap);
            assert forall|j: int| 0 <= j < r.len() implies d.1 <= r[j].1 by {
                assert(self.cap > 0);
                assert(d.1 <= self.items@[0].cnt);
                assert(r[0].1 <= r[j].1);
                assert(r[0] == self.items@[0]@);
            }
        }
    }

    /// Below capacity nothing is ever discarded: as long as at most
    /// `capacity` items were fed in, the selector retains every one of
    /// them.
    pub proof fn lemma_no_truncation(self)
        requires
            self.wf(),
            self.processed().len() <= self.capacity(),
        ensures
            self.retained().to_multiset() == self.processed(),
    {
        broadcast use vstd::seq_lib::group_to_multiset_ensures;
        broadcast use vstd::multiset::group_multiset_axioms;

        let rms = self.retained().to_multiset();
        assert(rms.len() == self.retained().len());
        if self.discarded@.len() > 0 {
            let w = self.discarded@.choose();
            assert(self.discarded@.count(w) > 0);
            assert(self.items@.len() == self.cap);
            assert(self.processed().len() == rms.len() + self.discarded@.len());
        }
        assert(self.discarded@.len() == 0);
        vstd::multiset::lemma_multiset_empty_len(self.discarded@);
        assert(rms.add(self.discarded@) =~= rms);
    }
}

} // verus!
