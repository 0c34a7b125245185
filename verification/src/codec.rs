//! The sidecar file format: one `key,count` record per line. The key is an
//! arbitrary byte string (it may itself hold commas), the count a decimal
//! numeral, and the two are split at the record's last comma, so that
//! decoding a record recovers exactly what was encoded.

use vstd::prelude::*;
use crate::item::CountItem;
use crate::item::clone_bytes;

verus! {

/// The comma that separates key from count.
pub const SEP: u8 = 44;

/// An ASCII decimal digit.
pub open spec fn is_digit(b: u8) -> bool {
    48 <= b <= 57
}

/// The value of one digit.
pub open spec fn digit_val(b: u8) -> nat {
    (b - 48) as nat
}

/// The decimal numeral of `x`, most significant digit first.
pub open spec fn dec_of(x: nat) -> Seq<u8>
    decreases x,
{
    if x < 10 {
        seq![(x + 48) as u8]
    } else {
        dec_of(x / 10).push(((x % 10) + 48) as u8)
    }
}

/// The value of a decimal numeral.
pub open spec fn num_of(digits: Seq<u8>) -> nat
    decreases digits.len(),
{
    if digits.len() == 0 {
        0
    } else {
        num_of(digits.drop_last()) * 10 + digit_val(digits.last())
    }
}

/// A numeral is nonempty, holds digits only, and reading it back gives the
/// number it was written from.
pub proof fn lemma_dec_of(x: nat)
    ensures
        dec_of(x).len() >= 1,
        forall|i: int| 0 <= i < dec_of(x).len() ==> is_digit(#[trigger] dec_of(x)[i]),
        num_of(dec_of(x)) == x,
    decreases x,
{
    if x < 10 {
        assert(num_of(dec_of(x)) == num_of(dec_of(x).drop_last()) * 10 + digit_val(dec_of(x).last()));
        assert(dec_of(x).drop_last() =~= Seq::<u8>::empty());
    } else {
        lemma_dec_of(x / 10);
        let d = (((x % 10) + 48) as u8);
        assert(dec_of(x) == dec_of(x / 10).push(d));
        assert(dec_of(x).drop_last() =~= dec_of(x / 10));
        assert(num_of(dec_of(x)) == (x / 10) * 10 + (x % 10));
        assert((x / 10) * 10 + (x % 10) == x) by (nonlinear_arith);
    }
}

/// The index of the last separator in a record, `-1` where it has none.
pub open spec fn last_sep(line: Seq<u8>) -> int
    decreases line.len(),
{
    if line.len() == 0 {
        -1
    } else if line.last() == SEP {
        line.len() - 1
    } else {
        last_sep(line.drop_last())
    }
}

/// What characterizes the last separator: it is a separator and nothing
/// after it is one.
pub proof fn lemma_last_sep_unique(line: Seq<u8>, c: int)
    requires
        0 <= c < line.len(),
        line[c] == SEP,
        forall|j: int| c < j < line.len() ==> line[j] != SEP,
    ensures
        last_sep(line) == c,
    decreases line.len(),
{
    if c == line.len() - 1 {
    } else {
        assert(line.last() != SEP);
        assert(line.drop_last()[c] == line[c]);
        lemma_last_sep_unique(line.drop_last(), c);
    }
}

/// A record without a separator has `last_sep` `-1`.
pub proof fn lemma_no_sep(line: Seq<u8>)
    requires
        forall|j: int| 0 <= j < line.len() ==> line[j] != SEP,
    ensures
        last_sep(line) == -1,
    decreases line.len(),
{
    if line.len() > 0 {
        lemma_no_sep(line.drop_last());
    }
}

/// The model a sidecar record encodes: the key is everything before the
/// last separator, the count the numeral after it. A record with no
/// separator, an empty or non-numeric suffix, or a count that does not fit
/// in 64 bits is malformed.
pub open spec fn parse_model(line: Seq<u8>) -> Option<(Seq<u8>, u64)> {
    let c = last_sep(line);
    if c < 0 {
        None
    } else {
        let digits = line.skip(c + 1);
        if digits.len() == 0 {
            None
        } else if exists|i: int| 0 <= i < digits.len() && !is_digit(digits[i]) {
            None
        } else if num_of(digits) > u64::MAX {
            None
        } else {
            Some((line.take(c), num_of(digits) as u64))
        }
    }
}

/// The bytes that encode one `(key, count)` model.
pub open spec fn encode_model(m: (Seq<u8>, u64)) -> Seq<u8> {
    m.0 + seq![SEP] + dec_of(m.1 as nat)
}

/// Decoding a sidecar record recovers exactly the item it was encoded
/// from, whatever bytes — separators included — the key holds.
pub proof fn lemma_codec_round_trip(m: (Seq<u8>, u64))
    ensures
        parse_model(encode_model(m)) == Some(m),
{
    let e = encode_model(m);
    let k = m.0.len() as int;
    lemma_dec_of(m.1 as nat);
    assert(e[k] == SEP);
    assert forall|j: int| k < j < e.len() implies e[j] != SEP by {
        assert(e[j] == dec_of(m.1 as nat)[j - k - 1]);
        assert(is_digit(e[j]));
    }
    lemma_last_sep_unique(e, k);
    let digits = e.skip(k + 1);
    assert(digits =~= dec_of(m.1 as nat));
    assert(forall|i: int| 0 <= i < digits.len() ==> is_digit(#[trigger] digits[i]));
    assert(num_of(digits) == m.1 as nat);
    assert(e.take(k) =~= m.0);
}

/// The decimal digits of `x`, most significant first.
fn encode_u64(x: u64) -> (r: Vec<u8>)
    ensures
        r@ == dec_of(x as nat),
    decreases x,
{
    if x < 10 {
        let mut r: Vec<u8> = Vec::new();
        r.push((x as u8) + 48);
        proof {
            assert(r@ =~= dec_of(x as nat));
        }
        r
    } else {
        let mut r = encode_u64(x / 10);
        r.push(((x % 10) as u8) + 48);
        proof {
            assert((x / 10) as nat == (x as nat) / 10);
            assert((x % 10) as nat == (x as nat) % 10);
            assert(r@ =~= dec_of(x as nat));
        }
        r
    }
}

/// Encode one item as a `key,count` record.
pub fn encode_item(it: &CountItem) -> (r: Vec<u8>)
    ensures
        r@ == encode_model(it@),
{
    let mut r = clone_bytes(&it.key);
    r.push(SEP);
    let mut digits = encode_u64(it.cnt);
    r.append(&mut digits);
    proof {
        assert(r@ =~= encode_model(it@));
    }
    r
}

/// Prefixes of a numeral never decrease in value.
proof fn lemma_num_of_monotone(digits: Seq<u8>, i: int, j: int)
    requires
        0 <= i <= j <= digits.len(),
    ensures
        num_of(digits.take(i)) <= num_of(digits.take(j)),
    decreases j - i,
{
    if j > i {
        lemma_num_of_monotone(digits, i, j - 1);
        assert(digits.take(j).drop_last() =~= digits.take(j - 1));
        let p = num_of(digits.take(j - 1));
        assert(num_of(digits.take(j)) == p * 10 + digit_val(digits.take(j).last()));
        assert(p * 10 >= p) by (nonlinear_arith)
            requires
                p >= 0,
        ;
    }
}

/// Decode one sidecar record, or report it malformed.
pub fn parse_sidecar_line(line: &Vec<u8>) -> (r: Option<CountItem>)
    ensures
        r is Some <==> parse_model(line@) is Some,
        r is Some ==> r->0@ == parse_model(line@)->0,
{
    // find the last separator
    let mut sep: usize = 0;
    let mut found = false;
    let mut i: usize = line.len();
    while i > 0 && !found
        invariant
            i <= line.len(),
            found ==> sep < line.len() && line@[sep as int] == SEP
                && forall|j: int| sep < j < line.len() ==> line@[j] != SEP,
            !found ==> forall|j: int| i <= j < line.len() ==> line@[j] != SEP,
        decreases i,
    {
        i -= 1;
        if line[i] == SEP {
            sep = i;
            found = true;
        }
    }
    if !found {
        proof {
            lemma_no_sep(line@);
            assert(parse_model(line@) is None);
        }
        return None;
    }
    let ghost c = sep as int;
    proof {
        lemma_last_sep_unique(line@, c);
    }
    // read the numeral after it
    let ghost digits = line@.skip(c + 1);
    if sep + 1 == line.len() {
        proof {
            assert(digits.len() == 0);
        }
        return None;
    }
    let mut value: u128 = 0;
    let mut j: usize = sep + 1;
    while j < line.len()
        invariant
            c == sep as int,
            sep as int + 1 <= j <= line.len(),
            digits == line@.skip(c + 1),
            0 <= c < line.len(),
            last_sep(line@) == c,
            digits.len() > 0,
            forall|t: int| c + 1 <= t < j ==> is_digit(line@[t]),
            value == num_of(digits.take(j - sep - 1)),
            value <= u64::MAX,
        decreases line.len() - j,
    {
        let b = line[j];
        if b < 48 || b > 57 {
            proof {
                assert(digits[j - c - 1] == line@[j as int]);
                assert(!is_digit(digits[j - c - 1]));
                assert(exists|t: int| 0 <= t < digits.len() && !is_digit(digits[t]));
                assert(parse_model(line@) is None);
            }
            return None;
        }
        let d = (b - 48) as u128;
        let next = value * 10 + d;
        proof {
            assert(digits.take(j - sep - 1 + 1).drop_last() =~= digits.take(j - sep - 1));
            assert(digits.take(j - sep - 1 + 1).last() == line@[j as int]);
        }
        if next > u64::MAX as u128 {
            proof {
                assert(next == num_of(digits.take(j - sep)));
                if exists|t: int| 0 <= t < digits.len() && !is_digit(digits[t]) {
                    assert(parse_model(line@) is None);
                } else {
                    lemma_num_of_monotone(digits, j - sep, digits.len() as int);
                    assert(digits.take(digits.len() as int) =~= digits);
                    assert(num_of(digits) > u64::MAX);
                    assert(parse_model(line@) is None);
                }
            }
            return None;
        }
        value = next;
        j += 1;
    }
    proof {
        assert(digits.take(digits.len() as int) =~= digits);
        assert(forall|i2: int| 0 <= i2 < digits.len() ==> is_digit(#[trigger] digits[i2]));
        assert(num_of(digits) == value);
    }
    // copy the key out
    let mut key: Vec<u8> = Vec::new();
    let mut t: usize = 0;
    while t < sep
        invariant
            t <= sep <= line.len(),
            key@ == line@.take(t as int),
        decreases sep - t,
    {
        key.push(line[t]);
        proof {
            assert(line@.take(t + 1) =~= line@.take(t as int).push(line@[t as int]));
        }
        t += 1;
    }
    let cnt = value as u64;
    Some(CountItem { key, cnt })
}

} // verus!
