//! Exact per-shard frequency counting, and its composition with the
//! bounded selector: count every line of one shard, then keep the K keys
//! with the largest counts.

use vstd::prelude::*;
use crate::item::CountItem;
use crate::item::models_of;
use crate::item::bytes_eq;
use crate::item::clone_bytes;
use crate::selector::sorted_desc;

verus! {

/// The views of a vector of byte lines.
pub open spec fn views_of(lines: Seq<Vec<u8>>) -> Seq<Seq<u8>> {
    lines.map_values(|l: Vec<u8>| l@)
}

/// How many times `key` occurs in `lines`.
pub open spec fn occ(lines: Seq<Seq<u8>>, key: Seq<u8>) -> nat
    decreases lines.len(),
{
    if lines.len() == 0 {
        0
    } else {
        occ(lines.drop_last(), key) + if lines.last() == key {
            1nat
        } else {
            0nat
        }
    }
}

/// A key cannot occur more often than there are lines.
pub proof fn lemma_occ_le_len(lines: Seq<Seq<u8>>, key: Seq<u8>)
    ensures
        occ(lines, key) <= lines.len(),
    decreases lines.len(),
{
    if lines.len() > 0 {
        lemma_occ_le_len(lines.drop_last(), key);
    }
}

/// The number of distinct keys among `lines`.
pub open spec fn num_distinct(lines: Seq<Seq<u8>>) -> nat
    decreases lines.len(),
{
    if lines.len() == 0 {
        0
    } else {
        num_distinct(lines.drop_last()) + if occ(lines.drop_last(), lines.last()) > 0 {
            0nat
        } else {
            1nat
        }
    }
}

/// What it means for a sequence of `(key, count)` models to be a top-K of
/// the count map of `lines`: sorted by descending count, distinct keys
/// with their exact positive occurrence counts, as many entries as `k`
/// and the number of distinct keys allow, and every occurring key left
/// out counts no more than anything kept.
pub open spec fn is_top_k_of(lines: Seq<Seq<u8>>, k: int, r: Seq<(Seq<u8>, u64)>) -> bool {
    &&& sorted_desc(r)
    &&& forall|i: int, j: int| 0 <= i < r.len() && 0 <= j < r.len() && i != j
        ==> r[i].0 != r[j].0
    &&& forall|i: int| 0 <= i < r.len()
        ==> (#[trigger] r[i]).1 == occ(lines, r[i].0) && r[i].1 >= 1
    &&& r.len() == if num_distinct(lines) <= k {
        num_distinct(lines) as int
    } else {
        k
    }
    &&& forall|key: Seq<u8>| occ(lines, key) > 0
        && !(exists|i: int| 0 <= i < r.len() && (#[trigger] r[i]).0 == key)
        ==> forall|j: int| 0 <= j < r.len() ==> occ(lines, key) <= (#[trigger] r[j]).1
}

/// One direction of count uniqueness: position by position, `r2`'s counts
/// are no smaller than `r1`'s.
proof fn lemma_top_k_counts_le(
    lines: Seq<Seq<u8>>,
    k: int,
    r1: Seq<(Seq<u8>, u64)>,
    r2: Seq<(Seq<u8>, u64)>,
)
    requires
        is_top_k_of(lines, k, r1),
        is_top_k_of(lines, k, r2),
    ensures
        forall|j: int| 0 <= j < r1.len() ==> (#[trigger] r1[j]).1 <= r2[j].1,
{
    assert(r1.len() == r2.len());
    assert forall|j: int| 0 <= j < r1.len() implies (#[trigger] r1[j]).1 <= r2[j].1 by {
        if r1[j].1 > r2[j].1 {
            // each of the j + 1 keys r1[0 ..= j] counts above r2[j], so it
            // must stand in r2 — and, r2 being sorted, before index j
            let f = |i: int| choose|m: int| 0 <= m < r2.len() && r2[m].0 == r1[i].0;
            assert forall|i: int| 0 <= i <= j implies 0 <= #[trigger] f(i) < j
                && r2[f(i)].0 == r1[i].0 by {
                let key = r1[i].0;
                assert(r1[i].1 == occ(lines, key) && r1[i].1 >= 1);
                assert(r1[i].1 >= r1[j].1);
                if !(exists|m: int| 0 <= m < r2.len() && r2[m].0 == key) {
                    assert(occ(lines, key) <= r2[j].1);
                    assert(false);
                }
                let m = f(i);
                assert(0 <= m < r2.len() && r2[m].0 == key);
                assert(r2[m].1 == occ(lines, key));
                assert(r2[m].1 > r2[j].1);
                if m >= j {
                    assert(r2[j].1 >= r2[m].1);
                    assert(false);
                }
            }
            // j + 1 distinct keys cannot fit injectively in j slots
            let s1 = vstd::set_lib::set_int_range(0, j + 1);
            vstd::set_lib::lemma_int_range(0, j + 1);
            assert(vstd::relations::injective_on(f, s1)) by {
                assert forall|a: int, b: int|
                    s1.contains(a) && s1.contains(b) && #[trigger] f(a) == #[trigger] f(b)
                    implies a == b by {
                    if a != b {
                        assert(r1[a].0 != r1[b].0);
                        assert(r2[f(a)].0 == r1[a].0 && r2[f(b)].0 == r1[b].0);
                    }
                }
            }
            let img = s1.map(f);
            vstd::set_lib::lemma_map_size(s1, img, f);
            assert(img.subset_of(vstd::set_lib::set_int_range(0, j))) by {
                assert forall|m: int| img.contains(m)
                    implies vstd::set_lib::set_int_range(0, j).contains(m) by {
                    let i = choose|i: int| s1.contains(i) && m == f(i);
                    assert(0 <= f(i) < j);
                }
            }
            vstd::set_lib::lemma_int_range(0, j);
            vstd::set_lib::lemma_len_subset(img, vstd::set_lib::set_int_range(0, j));
            assert(false);
        }
    }
}

/// The kept counts of a top-K are unique: any two top-K results of the
/// same source with the same capacity have, position by position, equal
/// counts — only which key carries a tied count may vary. In particular,
/// a top-K selected from the merged per-shard exact tables (which carry
/// the very count map of the source) shows the same counts as one
/// selected by counting the whole source in one pass.
pub proof fn lemma_top_k_counts_unique(
    lines: Seq<Seq<u8>>,
    k: int,
    r1: Seq<(Seq<u8>, u64)>,
    r2: Seq<(Seq<u8>, u64)>,
)
    requires
        is_top_k_of(lines, k, r1),
        is_top_k_of(lines, k, r2),
    ensures
        r1.len() == r2.len(),
        forall|j: int| 0 <= j < r1.len() ==> (#[trigger] r1[j]).1 == r2[j].1,
{
    lemma_top_k_counts_le(lines, k, r1, r2);
    lemma_top_k_counts_le(lines, k, r2, r1);
}

/// The index of the item holding `key`, if the table has one.
fn find_key(items: &Vec<CountItem>, key: &Vec<u8>) -> (r: Option<usize>)
    ensures
        match r {
            Some(i) => i < items@.len() && items@[i as int].key@ == key@,
            None => forall|i: int| 0 <= i < items@.len() ==> items@[i].key@ != key@,
        },
{
    let mut i: usize = 0;
    while i < items.len()
        invariant
            i <= items@.len(),
            forall|j: int| 0 <= j < i ==> items@[j].key@ != key@,
        decreases items@.len() - i,
    {
        if bytes_eq(&items[i].key, key) {
            return Some(i);
        }
        i += 1;
    }
    None
}

/// Stream a shard's lines and build the exact frequency table: one item
/// per distinct key, whose count is that key's number of occurrences.
pub fn count_items(lines: &Vec<Vec<u8>>) -> (r: Vec<CountItem>)
    ensures
        r@.len() == num_distinct(views_of(lines@)),
        forall|i: int| 0 <= i < r@.len()
            ==> (#[trigger] r@[i])@.1 == occ(views_of(lines@), r@[i]@.0) && r@[i]@.1 >= 1,
        forall|i: int, j: int| 0 <= i < r@.len() && 0 <= j < r@.len() && i != j
            ==> (#[trigger] r@[i])@.0 != (#[trigger] r@[j])@.0,
        forall|key: Seq<u8>| occ(views_of(lines@), key) > 0
            ==> exists|i: int| 0 <= i < r@.len() && (#[trigger] r@[i])@.0 == key,
{
    let ghost all = views_of(lines@);
    let mut r: Vec<CountItem> = Vec::new();
    let mut idx: usize = 0;
    while idx < lines.len()
        invariant
            idx <= lines@.len(),
            all == views_of(lines@),
            r@.len() == num_distinct(all.take(idx as int)),
            forall|i: int| 0 <= i < r@.len()
                ==> (#[trigger] r@[i])@.1 == occ(all.take(idx as int), r@[i]@.0)
                    && r@[i]@.1 >= 1,
            forall|i: int, j: int| 0 <= i < r@.len() && 0 <= j < r@.len() && i != j
                ==> (#[trigger] r@[i])@.0 != (#[trigger] r@[j])@.0,
            forall|key: Seq<u8>| occ(all.take(idx as int), key) > 0
                ==> exists|i: int| 0 <= i < r@.len() && (#[trigger] r@[i])@.0 == key,
        decreases lines@.len() - idx,
    {
        let ghost tk = all.take(idx as int);
        let ghost tk1 = all.take(idx as int + 1);
        proof {
            assert(tk1.drop_last() =~= tk);
            assert(tk1.last() == lines@[idx as int]@);
            assert(forall|key: Seq<u8>| lines@[idx as int]@ != key
                ==> occ(tk1, key) == occ(tk, key));
            assert(occ(tk1, lines@[idx as int]@) == occ(tk, lines@[idx as int]@) + 1);
        }
        let ghost rpre = r@;
        match find_key(&r, &lines[idx]) {
            Some(i) => {
                proof {
                    assert(occ(tk, rpre[i as int]@.0) > 0);
                    assert(num_distinct(tk1) == num_distinct(tk));
                    lemma_occ_le_len(tk, rpre[i as int]@.0);
                    assert(usize::MAX <= u64::MAX);
                }
                let mut it = r.remove(i);
                it.cnt = it.cnt + 1;
                r.insert(i, it);
                proof {
                    assert(r@ =~= rpre.update(i as int, it));
                    assert(forall|j: int| 0 <= j < r@.len()
                        ==> (#[trigger] r@[j])@.0 == rpre[j]@.0);
                    assert(r@[i as int]@.1 == occ(tk1, r@[i as int]@.0));
                    assert forall|key: Seq<u8>| occ(tk1, key) > 0
                        implies exists|m: int| 0 <= m < r@.len() && (#[trigger] r@[m])@.0 == key by {
                        if key == lines@[idx as int]@ {
                            assert(r@[i as int]@.0 == key);
                        } else {
                            assert(occ(tk, key) > 0);
                            let m = choose|m: int| 0 <= m < rpre.len() && (#[trigger] rpre[m])@.0 == key;
                            assert(r@[m]@.0 == key);
                        }
                    }
                }
            },
            None => {
                proof {
                    assert(occ(tk, lines@[idx as int]@) == 0) by {
                        if occ(tk, lines@[idx as int]@) > 0 {
                            let m = choose|m: int|
                                0 <= m < rpre.len() && (#[trigger] rpre[m])@.0 == lines@[idx as int]@;
                            assert(rpre[m].key@ == lines@[idx as int]@);
                        }
                    }
                    assert(num_distinct(tk1) == num_distinct(tk) + 1);
                }
                let key = clone_bytes(&lines[idx]);
                r.push(CountItem { key, cnt: 1 });
                proof {
                    assert(r@ =~= rpre.push(r@[rpre.len() as int]));
                    assert(r@[rpre.len() as int]@.0 == lines@[idx as int]@);
                    assert forall|key2: Seq<u8>| occ(tk1, key2) > 0
                        implies exists|m: int| 0 <= m < r@.len() && (#[trigger] r@[m])@.0 == key2 by {
                        if key2 == lines@[idx as int]@ {
                            assert(r@[rpre.len() as int]@.0 == key2);
                        } else {
                            assert(occ(tk, key2) > 0);
                            let m = choose|m: int|
                                0 <= m < rpre.len() && (#[trigger] rpre[m])@.0 == key2;
                            assert(r@[m]@.0 == key2);
                        }
                    }
                }
            },
        }
        idx += 1;
    }
    proof {
        assert(all.take(lines@.len() as int) =~= all);
    }
    r
}

/// Count one shard's lines exactly, then keep the `k` keys with the largest
/// counts, in descending count order.
///
/// The result lists distinct keys with their exact occurrence counts; it has
/// `min(k, number of distinct keys)` entries; and any key of the shard that
/// was left out occurs no more often than every count that was kept.
pub fn count_top_k(lines: &Vec<Vec<u8>>, k: usize) -> (r: Vec<CountItem>)
    ensures
        sorted_desc(models_of(r@)),
        r@.len() == if num_distinct(views_of(lines@)) <= k {
            num_distinct(views_of(lines@)) as int
        } else {
            k as int
        },
        forall|i: int| 0 <= i < r@.len()
            ==> (#[trigger] r@[i])@.1 == occ(views_of(lines@), r@[i]@.0) && r@[i]@.1 >= 1,
        forall|i: int, j: int| 0 <= i < r@.len() && 0 <= j < r@.len() && i != j
            ==> (#[trigger] r@[i])@.0 != (#[trigger] r@[j])@.0,
        forall|key: Seq<u8>| occ(views_of(lines@), key) > 0
            && (forall|i: int| 0 <= i < r@.len() ==> (#[trigger] r@[i])@.0 != key)
            ==> r@.len() == k as int
                && (forall|j: int| 0 <= j < r@.len()
                    ==> occ(views_of(lines@), key) <= (#[trigger] r@[j])@.1),
        num_distinct(views_of(lines@)) <= k
            ==> forall|key: Seq<u8>| occ(views_of(lines@), key) > 0
                ==> exists|i: int| 0 <= i < r@.len() && (#[trigger] r@[i])@.0 == key,
        is_top_k_of(views_of(lines@), k as int, models_of(r@)),
{
    proof {
        broadcast use vstd::seq_lib::group_to_multiset_ensures;
        broadcast use vstd::multiset::group_multiset_axioms;
    }
    let ghost all = views_of(lines@);
    let counts = count_items(lines);
    let ghost cm = models_of(counts@);
    proof {
        assert(cm.no_duplicates()) by {
            assert forall|i: int, j: int| 0 <= i < cm.len() && 0 <= j < cm.len() && i != j
                implies cm[i] != cm[j] by {
                assert(cm[i].0 != cm[j].0);
            }
        }
        cm.lemma_multiset_has_no_duplicates();
    }
    let r = crate::reducer::reduce(counts, k);
    let ghost om = models_of(r@);
    proof {
        // every entry of the result is an entry of the exact table
        assert forall|i: int| 0 <= i < r@.len()
            implies (#[trigger] r@[i])@.1 == occ(all, r@[i]@.0) && r@[i]@.1 >= 1 by {
            assert(om[i] == r@[i]@);
            assert(om.contains(om[i]));
            assert(om.to_multiset().count(om[i]) > 0);
            assert(cm.to_multiset().count(om[i]) > 0);
            assert(cm.contains(om[i]));
            let j = choose|j: int| 0 <= j < cm.len() && cm[j] == om[i];
            assert(counts@[j]@ == om[i]);
        }
        // distinct keys: the result repeats no model, and the table holds
        // each key only once
        assert(forall|x: (Seq<u8>, u64)|
            om.to_multiset().contains(x) ==> #[trigger] om.to_multiset().count(x) == 1);
        om.lemma_multiset_has_no_duplicates_conv();
        assert forall|i: int, j: int| 0 <= i < r@.len() && 0 <= j < r@.len() && i != j
            implies (#[trigger] r@[i])@.0 != (#[trigger] r@[j])@.0 by {
            if r@[i]@.0 == r@[j]@.0 {
                assert(om[i] != om[j]);
                assert(om.contains(om[i]));
                assert(om.to_multiset().count(om[i]) > 0);
                assert(cm.to_multiset().count(om[i]) > 0);
                assert(cm.contains(om[i]));
                assert(om.contains(om[j]));
                assert(om.to_multiset().count(om[j]) > 0);
                assert(cm.to_multiset().count(om[j]) > 0);
                assert(cm.contains(om[j]));
                let a = choose|a: int| 0 <= a < cm.len() && cm[a] == om[i];
                let b = choose|b: int| 0 <= b < cm.len() && cm[b] == om[j];
                assert(a != b);
                assert(counts@[a]@.0 == counts@[b]@.0);
            }
        }
        // any key left out has a count no greater than everything kept
        assert forall|key: Seq<u8>| occ(all, key) > 0
            && (forall|i: int| 0 <= i < r@.len() ==> (#[trigger] r@[i])@.0 != key)
            implies r@.len() == k as int
                && (forall|j: int| 0 <= j < r@.len()
                    ==> occ(all, key) <= (#[trigger] r@[j])@.1) by {
            let a = choose|a: int| 0 <= a < counts@.len() && (#[trigger] counts@[a])@.0 == key;
            let m = counts@[a]@;
            assert(cm[a] == m);
            assert(cm.contains(m));
            assert(cm.to_multiset().count(m) > 0);
            assert(om.to_multiset().count(m) == 0) by {
                if om.to_multiset().count(m) > 0 {
                    assert(om.contains(m));
                    let b = choose|b: int| 0 <= b < om.len() && om[b] == m;
                    assert(r@[b]@.0 == key);
                }
            }
            assert(m.1 == occ(all, key));
        }
        // with capacity for every distinct key, none is left out
        if num_distinct(all) <= k {
            assert forall|key: Seq<u8>| occ(all, key) > 0
                implies exists|i: int| 0 <= i < r@.len() && (#[trigger] r@[i])@.0 == key by {
                let a = choose|a: int|
                    0 <= a < counts@.len() && (#[trigger] counts@[a])@.0 == key;
                let m = counts@[a]@;
                assert(cm[a] == m);
                assert(cm.contains(m));
                assert(cm.to_multiset().count(m) > 0);
                assert(om.to_multiset() == cm.to_multiset());
                assert(om.to_multiset().count(m) > 0);
                assert(om.contains(m));
                let b = choose|b: int| 0 <= b < om.len() && om[b] == m;
                assert(r@[b]@.0 == key);
            }
        }
        // the clauses above are exactly the top-K characterization
        assert(is_top_k_of(all, k as int, om)) by {
            assert(forall|i: int| 0 <= i < om.len() ==> om[i] == (#[trigger] r@[i])@);
            assert forall|key: Seq<u8>| occ(all, key) > 0
                && !(exists|i: int| 0 <= i < om.len() && (#[trigger] om[i]).0 == key)
                implies forall|j: int| 0 <= j < om.len()
                    ==> occ(all, key) <= (#[trigger] om[j]).1 by {
                assert(forall|i: int| 0 <= i < r@.len() ==> (#[trigger] r@[i])@.0 != key);
            }
        }
    }
    r
}

} // verus!
