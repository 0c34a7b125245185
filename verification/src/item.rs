//! The `(key, count)` pair that every stage of the pipeline trades in.

use vstd::prelude::*;

verus! {

/// One key of the corpus together with an occurrence count.
/// Keys are opaque byte strings; equality is byte-exact.
pub struct CountItem {
    pub key: Vec<u8>,
    pub cnt: u64,
}

impl View for CountItem {
    type V = (Seq<u8>, u64);

    open spec fn view(&self) -> (Seq<u8>, u64) {
        (self.key@, self.cnt)
    }
}

/// The mathematical models of a sequence of items.
pub open spec fn models_of(s: Seq<CountItem>) -> Seq<(Seq<u8>, u64)> {
    s.map_values(|it: CountItem| it@)
}

/// An owned copy of a key's bytes.
pub fn clone_bytes(v: &Vec<u8>) -> (r: Vec<u8>)
    ensures
        r@ == v@,
{
    let mut r: Vec<u8> = Vec::new();
    let mut i: usize = 0;
    while i < v.len()
        invariant
            i <= v.len(),
            r@ == v@.take(i as int),
        decreases v.len() - i,
    {
        r.push(v[i]);
        proof {
            assert(v@.take(i + 1) =~= v@.take(i as int).push(v@[i as int]));
        }
        i += 1;
    }
    proof {
        assert(v@.take(v@.len() as int) =~= v@);
    }
    r
}

/// Byte-exact key equality, the only notion of equality the pipeline uses.
pub fn bytes_eq(a: &Vec<u8>, b: &Vec<u8>) -> (r: bool)
    ensures
        r == (a@ == b@),
{
    if a.len() != b.len() {
        assert(a@ != b@);
        return false;
    }
    let mut i: usize = 0;
    while i < a.len()
        invariant
            i <= a.len(),
            a.len() == b.len(),
            forall|j: int| 0 <= j < i ==> a@[j] == b@[j],
        decreases a.len() - i,
    {
        if a[i] != b[i] {
            assert(a@ != b@);
            return false;
        }
        i += 1;
    }
    proof {
        assert(a@ =~= b@);
    }
    true
}

} // verus!
