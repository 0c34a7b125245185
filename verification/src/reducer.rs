//! Re-selection: feed a union of `(key, count)` items into a fresh bounded
//! selector and drain it, yielding a top-K of the union. The cross-shard
//! merge and the per-shard cutoff are both instances of this.

use vstd::prelude::*;
use vstd::multiset::Multiset;
use crate::item::CountItem;
use crate::item::models_of;
use crate::selector::TopK;
use crate::selector::sorted_desc;

verus! {

/// Select the `k` items with the largest counts out of `items`.
///
/// The result is a sub-multiset of the input of size `min(k, items.len())`,
/// sorted by descending count, and any input occurrence that was dropped
/// has a count no greater than every count that was kept: the result is a
/// true top-K of the union, up to ties among equal counts.
pub fn reduce(items: Vec<CountItem>, k: usize) -> (r: Vec<CountItem>)
    ensures
        sorted_desc(models_of(r@)),
        models_of(r@).to_multiset().subset_of(models_of(items@).to_multiset()),
        r@.len() == if items@.len() <= k {
            items@.len() as int
        } else {
            k as int
        },
        items@.len() <= k ==> models_of(r@).to_multiset() == models_of(items@).to_multiset(),
        forall|m: (Seq<u8>, u64)|
            #[trigger] models_of(items@).to_multiset().count(m)
                > models_of(r@).to_multiset().count(m)
            ==> r@.len() == k as int
                && forall|j: int| 0 <= j < r@.len() ==> m.1 <= (#[trigger] r@[j])@.1,
{
    proof {
        broadcast use vstd::seq_lib::group_to_multiset_ensures;
        broadcast use vstd::multiset::group_multiset_axioms;
    }
    let ghost im = models_of(items@);
    let mut rest = items;
    let mut sel = TopK::new(k);
    while rest.len() > 0
        invariant
            sel.wf(),
            sel.capacity() == k as int,
            sel.processed().add(models_of(rest@).to_multiset()) == im.to_multiset(),
        decreases rest@.len(),
    {
        proof {
            broadcast use vstd::seq_lib::group_to_multiset_ensures;
            broadcast use vstd::multiset::group_multiset_axioms;
        }
        let ghost pre = rest@;
        let ghost preproc = sel.processed();
        let it = rest.remove(rest.len() - 1);
        proof {
            assert(pre.remove(pre.len() - 1) =~= pre.drop_last());
            assert(models_of(pre.drop_last()) =~= models_of(pre).drop_last());
            assert(models_of(pre).drop_last() =~= models_of(pre).remove(models_of(pre).len() - 1));
            assert(models_of(rest@).to_multiset()
                == models_of(pre).to_multiset().remove(it@));
            assert(models_of(pre).contains(it@));
            assert(models_of(pre).to_multiset().count(it@) > 0);
        }
        sel.insert(it);
        proof {
            assert(sel.processed().add(models_of(rest@).to_multiset()) =~= im.to_multiset());
        }
    }
    proof {
        assert(models_of(rest@) =~= Seq::<(Seq<u8>, u64)>::empty());
        assert(models_of(rest@).to_multiset() =~= Multiset::<(Seq<u8>, u64)>::empty());
        assert(sel.processed() =~= im.to_multiset());
        assert(im.to_multiset().len() == im.len());
        sel.lemma_top_k_correct();
        if im.len() <= k {
            sel.lemma_no_truncation();
        }
    }
    let ghost rm = sel.retained();
    let r = sel.drain_descending();
    proof {
        let om = models_of(r@);
        assert(om.to_multiset() == rm.to_multiset());
        assert forall|m: (Seq<u8>, u64)|
            #[trigger] im.to_multiset().count(m) > om.to_multiset().count(m)
            implies r@.len() == k as int
                && forall|j: int| 0 <= j < r@.len() ==> m.1 <= (#[trigger] r@[j])@.1 by {
            assert(rm.len() == k as int);
            assert forall|j: int| 0 <= j < r@.len() implies m.1 <= (#[trigger] r@[j])@.1 by {
                assert(om[j] == r@[j]@);
                assert(om.contains(om[j]));
                assert(rm.to_multiset().count(om[j]) > 0);
                assert(rm.contains(om[j]));
                let idx = choose|idx: int| 0 <= idx < rm.len() && rm[idx] == om[j];
                assert(m.1 <= rm[idx].1);
            }
        }
    }
    r
}

/// The models of the well-formed records among a set of sidecar lines, in
/// order; malformed records contribute nothing.
pub open spec fn parsed_models(lines: Seq<Seq<u8>>) -> Seq<(Seq<u8>, u64)>
    decreases lines.len(),
{
    if lines.len() == 0 {
        Seq::empty()
    } else {
        parsed_models(lines.drop_last()) + match crate::codec::parse_model(lines.last()) {
            Option::Some(m) => seq![m],
            Option::None => Seq::empty(),
        }
    }
}

/// The cross-shard reduction: decode every record of every sidecar file,
/// skip the malformed ones, feed the whole union into a fresh selector of
/// capacity `k`, and drain it into the global top-K ranking.
///
/// The result is exact when each sidecar held its shard's full frequency
/// table, or more generally when every globally relevant key survived its
/// shard's local cutoff; the per-shard capacity must therefore be at least
/// `k`, and generously larger where shards may crowd many heavy keys.
/// Otherwise the result is the best ranking the surviving records allow —
/// a top-K of their union, which the contract states exactly.
pub fn reduce_sidecars(lines: &Vec<Vec<u8>>, k: usize) -> (r: Vec<CountItem>)
    ensures
        sorted_desc(models_of(r@)),
        models_of(r@).to_multiset().subset_of(
            parsed_models(crate::counting::views_of(lines@)).to_multiset(),
        ),
        r@.len() == if parsed_models(crate::counting::views_of(lines@)).len() <= k {
            parsed_models(crate::counting::views_of(lines@)).len() as int
        } else {
            k as int
        },
        parsed_models(crate::counting::views_of(lines@)).len() <= k
            ==> models_of(r@).to_multiset()
                == parsed_models(crate::counting::views_of(lines@)).to_multiset(),
        forall|m: (Seq<u8>, u64)|
            #[trigger] parsed_models(crate::counting::views_of(lines@)).to_multiset().count(m)
                > models_of(r@).to_multiset().count(m)
            ==> r@.len() == k as int
                && forall|j: int| 0 <= j < r@.len() ==> m.1 <= (#[trigger] r@[j])@.1,
{
    let ghost all = crate::counting::views_of(lines@);
    let mut items: Vec<CountItem> = Vec::new();
    let mut i: usize = 0;
    while i < lines.len()
        invariant
            i <= lines@.len(),
            all == crate::counting::views_of(lines@),
            models_of(items@) == parsed_models(all.take(i as int)),
        decreases lines@.len() - i,
    {
        let ghost tk = all.take(i as int);
        let ghost tk1 = all.take(i as int + 1);
        proof {
            assert(tk1.drop_last() =~= tk);
            assert(tk1.last() == lines@[i as int]@);
        }
        let ghost itemspre = items@;
        match crate::codec::parse_sidecar_line(&lines[i]) {
            Some(it) => {
                proof {
                    assert(it@ == crate::codec::parse_model(tk1.last())->0);
                }
                items.push(it);
                proof {
                    assert(models_of(items@) =~= models_of(itemspre).push(it@));
                    assert(parsed_models(tk1) =~= parsed_models(tk).push(it@));
                }
            },
            None => {
                proof {
                    assert(parsed_models(tk1) =~= parsed_models(tk));
                }
            },
        }
        i += 1;
    }
    proof {
        assert(all.take(lines@.len() as int) =~= all);
        assert(models_of(items@).len() == items@.len());
    }
    reduce(items, k)
}

} // verus!
