//! Hash partitioning: split a source's lines into `N` shards, where each
//! line lands in the shard given by its hash modulo `N`, together with the
//! laws this gives the pipeline: assignment is deterministic, and every
//! occurrence of one key lands in exactly one shard.

use vstd::prelude::*;
use vstd::arithmetic::div_mod::lemma_fundamental_div_mod;
use vstd::arithmetic::div_mod::lemma_fundamental_div_mod_converse;
use vstd::arithmetic::mul::lemma_mul_inequality;
use crate::hashing::shard_of;
use crate::item::clone_bytes;
use crate::hashing::assign_shard;
use crate::counting::views_of;
use crate::counting::occ;

verus! {

/// How many bytes one megabyte holds.
pub const BYTES_PER_MB: u64 = 1048576;

/// Ceiling division.
pub open spec fn ceil_div(a: int, b: int) -> int
    recommends
        b > 0,
{
    (a + b - 1) / b
}

/// The shard size in bytes for a target size given in megabytes, or `None`
/// where the product does not fit in 64 bits.
pub fn shard_bytes_of_mb(mb: u64) -> (r: Option<u64>)
    ensures
        r is Some <==> mb * BYTES_PER_MB <= u64::MAX,
        r is Some ==> r->Some_0 == mb * BYTES_PER_MB,
{
    if mb <= u64::MAX / BYTES_PER_MB {
        proof {
            lemma_fundamental_div_mod(u64::MAX as int, BYTES_PER_MB as int);
            lemma_mul_inequality(
                mb as int,
                (u64::MAX / BYTES_PER_MB) as int,
                BYTES_PER_MB as int,
            );
        }
        Some(mb * BYTES_PER_MB)
    } else {
        proof {
            lemma_fundamental_div_mod(u64::MAX as int, BYTES_PER_MB as int);
            if mb * BYTES_PER_MB <= u64::MAX {
                lemma_mul_inequality(
                    (u64::MAX / BYTES_PER_MB) as int + 1,
                    mb as int,
                    BYTES_PER_MB as int,
                );
            }
        }
        None
    }
}

/// The shard count for a source of `source_size` bytes split into shards of
/// `shard_bytes` bytes: the ceiling of their quotient.
pub fn num_shards(source_size: u64, shard_bytes: u64) -> (r: u64)
    requires
        shard_bytes > 0,
    ensures
        r == ceil_div(source_size as int, shard_bytes as int),
{
    let q = source_size / shard_bytes;
    let rem = source_size % shard_bytes;
    proof {
        let a = source_size as int;
        let b = shard_bytes as int;
        lemma_fundamental_div_mod(a, b);
        if rem == 0 {
            lemma_fundamental_div_mod_converse(a + b - 1, b, q as int, b - 1);
        } else {
            assert(b >= 2);
            assert(2 * (q as int) <= a - 1) by (nonlinear_arith)
                requires
                    (q as int) * b + (rem as int) == a,
                    1 <= rem as int,
                    b >= 2,
                    q as int >= 0,
            ;
            assert((q as int + 1) * b + (rem as int - 1) == a + b - 1) by (nonlinear_arith)
                requires
                    (q as int) * b + (rem as int) == a,
            ;
            lemma_fundamental_div_mod_converse(a + b - 1, b, q as int + 1, rem as int - 1);
        }
    }
    if rem == 0 {
        q
    } else {
        q + 1
    }
}

/// The per-line shard assignment of a whole source.
pub open spec fn assignments(lines: Seq<Seq<u8>>, n: int) -> Seq<int> {
    lines.map_values(|l: Seq<u8>| shard_of(l, n))
}

/// Assign every line of the source to its shard.
pub fn assign_shards(lines: &Vec<Vec<u8>>, n: u64) -> (r: Vec<u64>)
    requires
        n >= 1,
        forall|i: int| 0 <= i < lines@.len()
            ==> (#[trigger] lines@[i])@.len() <= crate::hashing::MAX_HASH_INPUT,
    ensures
        r@.len() == lines@.len(),
        forall|i: int| 0 <= i < r@.len()
            ==> #[trigger] r@[i] == shard_of(lines@[i]@, n as int) && r@[i] < n,
        r@.map_values(|x: u64| x as int) == assignments(views_of(lines@), n as int),
{
    let mut r: Vec<u64> = Vec::new();
    let mut i: usize = 0;
    while i < lines.len()
        invariant
            i <= lines@.len(),
            r@.len() == i,
            n >= 1,
            forall|j: int| 0 <= j < lines@.len()
                ==> (#[trigger] lines@[j])@.len() <= crate::hashing::MAX_HASH_INPUT,
            forall|j: int| 0 <= j < i
                ==> #[trigger] r@[j] == shard_of(lines@[j]@, n as int) && r@[j] < n,
        decreases lines@.len() - i,
    {
        let h = assign_shard(&lines[i], n);
        r.push(h);
        i += 1;
    }
    proof {
        assert(r@.map_values(|x: u64| x as int) =~= assignments(views_of(lines@), n as int));
    }
    r
}

/// The assignment is a pure function of the lines and the shard count:
/// partitioning the same source twice with the same parameters sends every
/// line to the same shard both times.
pub proof fn lemma_partition_deterministic(a: Seq<Seq<u8>>, b: Seq<Seq<u8>>, n: int)
    requires
        a == b,
    ensures
        assignments(a, n) == assignments(b, n),
{
}

/// The lines of shard `s`: those whose hash assigns them to `s`, in source
/// order.
pub open spec fn shard_lines(lines: Seq<Seq<u8>>, n: int, s: int) -> Seq<Seq<u8>> {
    lines.filter(|l: Seq<u8>| shard_of(l, n) == s)
}

/// Split the source's lines into `n` shards by hash.
pub fn partition(lines: &Vec<Vec<u8>>, n: u64) -> (r: Vec<Vec<Vec<u8>>>)
    requires
        1 <= n <= usize::MAX,
        forall|i: int| 0 <= i < lines@.len()
            ==> (#[trigger] lines@[i])@.len() <= crate::hashing::MAX_HASH_INPUT,
    ensures
        r@.len() == n,
        forall|s: int| 0 <= s < n
            ==> views_of((#[trigger] r@[s])@) == shard_lines(views_of(lines@), n as int, s),
{
    let ghost all = views_of(lines@);
    let nn = n as usize;
    let mut r: Vec<Vec<Vec<u8>>> = Vec::new();
    while r.len() < nn
        invariant
            r@.len() <= nn,
            forall|s: int| 0 <= s < r@.len() ==> (#[trigger] r@[s])@.len() == 0,
        decreases nn - r@.len(),
    {
        r.push(Vec::new());
    }
    proof {
        reveal(Seq::filter);
        assert forall|s: int| 0 <= s < n
            implies views_of((#[trigger] r@[s])@) == shard_lines(all.take(0), n as int, s) by {
            assert(all.take(0) =~= Seq::<Seq<u8>>::empty());
            assert(Seq::<Seq<u8>>::empty().filter(|l: Seq<u8>| shard_of(l, n as int) == s)
                =~= Seq::<Seq<u8>>::empty());
            assert(views_of(r@[s]@) =~= Seq::<Seq<u8>>::empty());
        }
    }
    let mut idx: usize = 0;
    while idx < lines.len()
        invariant
            idx <= lines@.len(),
            all == views_of(lines@),
            1 <= n <= usize::MAX,
            forall|j: int| 0 <= j < lines@.len()
                ==> (#[trigger] lines@[j])@.len() <= crate::hashing::MAX_HASH_INPUT,
            r@.len() == n,
            forall|s: int| 0 <= s < n
                ==> views_of((#[trigger] r@[s])@) == shard_lines(all.take(idx as int), n as int, s),
        decreases lines@.len() - idx,
    {
        let ghost tk = all.take(idx as int);
        let ghost tk1 = all.take(idx as int + 1);
        let h = assign_shard(&lines[idx], n);
        let hh = h as usize;
        let line = clone_bytes(&lines[idx]);
        let ghost rpre = r@;
        let mut shard = r.remove(hh);
        let ghost shardpre = shard@;
        shard.push(line);
        r.insert(hh, shard);
        proof {
            broadcast use Seq::lemma_filter_push;

            let x = lines@[idx as int]@;
            assert(r@ =~= rpre.update(hh as int, r@[hh as int]));
            assert(views_of(r@[hh as int]@) =~= views_of(shardpre).push(x));
            assert(tk1 =~= tk.push(x));
            assert forall|s: int| 0 <= s < n
                implies views_of((#[trigger] r@[s])@)
                    == shard_lines(tk1, n as int, s) by {
                let pred = |l: Seq<u8>| shard_of(l, n as int) == s;
                assert(tk.push(x).filter(pred) == if pred(x) {
                    tk.filter(pred).push(x)
                } else {
                    tk.filter(pred)
                });
                if s == h {
                    assert(pred(x));
                    assert(views_of(r@[s]@) == shard_lines(tk, n as int, s).push(x));
                } else {
                    assert(!pred(x));
                    assert(r@[s] == rpre[s]);
                }
            }
        }
        idx += 1;
    }
    proof {
        assert(all.take(lines@.len() as int) =~= all);
    }
    r
}

/// Without skew, every occurrence of a key lands in the key's own shard:
/// that shard holds the key's full source count, every other shard holds
/// none of it.
pub proof fn lemma_key_in_one_shard(lines: Seq<Seq<u8>>, n: int, key: Seq<u8>)
    requires
        n >= 1,
    ensures
        forall|s: int| 0 <= s < n
            ==> occ(#[trigger] shard_lines(lines, n, s), key) == if shard_of(key, n) == s {
                occ(lines, key)
            } else {
                0nat
            },
    decreases lines.len(),
{
    if lines.len() == 0 {
        reveal(Seq::filter);
        assert forall|s: int| 0 <= s < n
            implies occ(#[trigger] shard_lines(lines, n, s), key) == if shard_of(key, n) == s {
                occ(lines, key)
            } else {
                0nat
            } by {
            let pred = |l: Seq<u8>| shard_of(l, n) == s;
            assert(lines.filter(pred) =~= Seq::<Seq<u8>>::empty());
        }
    } else {
        broadcast use Seq::lemma_filter_push;

        let tk = lines.drop_last();
        let last = lines.last();
        lemma_key_in_one_shard(tk, n, key);
        assert(lines =~= tk.push(last));
        assert forall|s: int| 0 <= s < n
            implies occ(#[trigger] shard_lines(lines, n, s), key) == if shard_of(key, n) == s {
                occ(lines, key)
            } else {
                0nat
            } by {
            let pred = |l: Seq<u8>| shard_of(l, n) == s;
            assert(occ(shard_lines(tk, n, s), key) == if shard_of(key, n) == s {
                occ(tk, key)
            } else {
                0nat
            });
            assert(shard_lines(tk, n, s) == tk.filter(pred));
            assert(shard_lines(lines, n, s) == tk.push(last).filter(pred));
            assert(tk.push(last).filter(pred) == if pred(last) {
                tk.filter(pred).push(last)
            } else {
                tk.filter(pred)
            });
            if pred(last) {
                let f = tk.filter(pred);
                assert(f.push(last).drop_last() =~= f);
                assert(f.push(last).last() == last);
                assert(occ(f.push(last), key)
                    == occ(f, key) + if last == key { 1nat } else { 0nat });
            }
            if last == key {
                assert(shard_of(last, n) == shard_of(key, n));
            }
            assert(occ(lines, key) == occ(tk, key) + if last == key { 1nat } else { 0nat });
        }
    }
}

/// The counts for one key, summed over the shards `0 .. upto`.
pub open spec fn sum_shard_occ(lines: Seq<Seq<u8>>, n: int, key: Seq<u8>, upto: int) -> nat
    decreases upto,
{
    if upto <= 0 {
        0
    } else {
        sum_shard_occ(lines, n, key, upto - 1) + occ(shard_lines(lines, n, upto - 1), key)
    }
}

proof fn lemma_sum_indicator(lines: Seq<Seq<u8>>, n: int, key: Seq<u8>, upto: int)
    requires
        n >= 1,
        0 <= upto <= n,
    ensures
        sum_shard_occ(lines, n, key, upto) == if shard_of(key, n) < upto {
            occ(lines, key)
        } else {
            0nat
        },
    decreases upto,
{
    lemma_key_in_one_shard(lines, n, key);
    if upto > 0 {
        lemma_sum_indicator(lines, n, key, upto - 1);
    }
}

/// Conservation of counts: with skew disabled, the counts for one key
/// summed over all shards equal the key's total count in the source.
pub proof fn lemma_conservation(lines: Seq<Seq<u8>>, n: int, key: Seq<u8>)
    requires
        n >= 1,
    ensures
        sum_shard_occ(lines, n, key, n) == occ(lines, key),
{
    lemma_sum_indicator(lines, n, key, n);
    assert(0 <= shard_of(key, n) < n);
}

/// Merge equivalence: reducing per-shard exact counts agrees with counting
/// the whole source in one pass. Each key's exact global count appears in
/// exactly one shard's frequency table, with every other shard contributing
/// nothing, so the union of the per-shard tables is the global table.
pub proof fn lemma_merge_equivalence(lines: Seq<Seq<u8>>, n: int, key: Seq<u8>)
    requires
        n >= 1,
    ensures
        occ(shard_lines(lines, n, shard_of(key, n)), key) == occ(lines, key),
        forall|s: int| 0 <= s < n && s != shard_of(key, n)
            ==> occ(#[trigger] shard_lines(lines, n, s), key) == 0,
{
    lemma_key_in_one_shard(lines, n, key);
    assert(0 <= shard_of(key, n) < n);
}

} // verus!
