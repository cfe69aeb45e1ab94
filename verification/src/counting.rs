//! Counting and enumerating the set flags of a sequence, and packing small
//! digits into one number. The games describe their legal moves, their
//! remaining length and their position keys with these.

use vstd::prelude::*;

verus! {

/// How many entries of `s` are `true`.
pub open spec fn count_true(s: Seq<bool>) -> nat
    decreases s.len(),
{
    if s.len() == 0 {
        0
    } else {
        count_true(s.drop_last()) + if s.last() {
            1nat
        } else {
            0nat
        }
    }
}

/// The indices of the `true` entries of `s`, ascending.
pub open spec fn true_indices(s: Seq<bool>) -> Seq<int>
    decreases s.len(),
{
    if s.len() == 0 {
        Seq::empty()
    } else if s.last() {
        true_indices(s.drop_last()).push(s.len() - 1)
    } else {
        true_indices(s.drop_last())
    }
}

/// Clearing a set flag lowers the count by one.
pub proof fn lemma_count_clear(s: Seq<bool>, k: int)
    requires
        0 <= k < s.len(),
        s[k],
    ensures
        count_true(s.update(k, false)) + 1 == count_true(s),
    decreases s.len(),
{
    let t = s.update(k, false);
    if k == s.len() - 1 {
        assert(t.drop_last() =~= s.drop_last());
    } else {
        lemma_count_clear(s.drop_last(), k);
        assert(t.drop_last() =~= s.drop_last().update(k, false));
    }
}

/// The enumeration lists exactly the set flags, each once, in ascending
/// order, and is as long as their count.
pub proof fn lemma_true_indices(s: Seq<bool>)
    ensures
        true_indices(s).len() == count_true(s),
        forall|i: int|
            0 <= i < true_indices(s).len() ==> 0 <= (#[trigger] true_indices(s)[i]) < s.len()
                && s[true_indices(s)[i]],
        forall|i: int, j: int|
            0 <= i < j < true_indices(s).len() ==> (#[trigger] true_indices(s)[i]) < (
            #[trigger] true_indices(s)[j]),
        forall|k: int| 0 <= k < s.len() && s[k] ==> true_indices(s).contains(k),
    decreases s.len(),
{
    if s.len() > 0 {
        let p = s.drop_last();
        lemma_true_indices(p);
        let tp = true_indices(p);
        let ts = true_indices(s);
        assert forall|k: int| 0 <= k < s.len() && s[k] implies ts.contains(k) by {
            if k < s.len() - 1 {
                assert(p[k]);
                let i = choose|i: int| 0 <= i < tp.len() && tp[i] == k;
                assert(ts[i] == k);
            } else {
                assert(ts[ts.len() - 1] == k);
            }
        }
    }
}

/// One more entry extends the enumeration of a prefix by at most its index.
pub proof fn lemma_true_indices_step(s: Seq<bool>, n: int)
    requires
        0 <= n < s.len(),
    ensures
        true_indices(s.take(n + 1)) == if s[n] {
            true_indices(s.take(n)).push(n)
        } else {
            true_indices(s.take(n))
        },
        count_true(s.take(n + 1)) == count_true(s.take(n)) + if s[n] {
            1nat
        } else {
            0nat
        },
{
    assert(s.take(n + 1).drop_last() =~= s.take(n));
}

/// `4^n`.
pub open spec fn pow4(n: nat) -> nat
    decreases n,
{
    if n == 0 {
        1
    } else {
        4 * pow4((n - 1) as nat)
    }
}

/// The number whose base-four digits are `digits`, the first the most
/// significant.
pub open spec fn pack4(digits: Seq<nat>) -> nat
    decreases digits.len(),
{
    if digits.len() == 0 {
        0
    } else {
        pack4(digits.drop_last()) * 4 + digits.last()
    }
}

pub open spec fn all_below4(digits: Seq<nat>) -> bool {
    forall|i: int| 0 <= i < digits.len() ==> #[trigger] digits[i] < 4
}

pub proof fn lemma_pow4_monotone(a: nat, b: nat)
    requires
        a <= b,
    ensures
        pow4(a) <= pow4(b),
        pow4(a) >= 1,
    decreases b,
{
    if a < b {
        lemma_pow4_monotone(a, (b - 1) as nat);
    } else if a > 0 {
        lemma_pow4_monotone((a - 1) as nat, (a - 1) as nat);
    }
}

/// Sixty-three digits fit into 126 bits.
pub proof fn lemma_pow4_63()
    ensures
        pow4(63) == 0x4000_0000_0000_0000_0000_0000_0000_0000,
{
    reveal_with_fuel(pow4, 64);
}

pub proof fn lemma_pack4_bound(digits: Seq<nat>)
    requires
        all_below4(digits),
    ensures
        pack4(digits) < pow4(digits.len()),
    decreases digits.len(),
{
    if digits.len() > 0 {
        let p = digits.drop_last();
        assert(all_below4(p)) by {
            assert forall|i: int| 0 <= i < p.len() implies #[trigger] p[i] < 4 by {
                assert(p[i] == digits[i]);
            }
        }
        lemma_pack4_bound(p);
    }
}

/// Two digit strings of one length that pack to the same number are equal.
pub proof fn lemma_pack4_injective(a: Seq<nat>, b: Seq<nat>)
    requires
        a.len() == b.len(),
        all_below4(a),
        all_below4(b),
        pack4(a) == pack4(b),
    ensures
        a == b,
    decreases a.len(),
{
    if a.len() > 0 {
        let pa = a.drop_last();
        let pb = b.drop_last();
        assert(a.last() < 4 && b.last() < 4);
        assert(all_below4(pa)) by {
            assert forall|i: int| 0 <= i < pa.len() implies #[trigger] pa[i] < 4 by {
                assert(pa[i] == a[i]);
            }
        }
        assert(all_below4(pb)) by {
            assert forall|i: int| 0 <= i < pb.len() implies #[trigger] pb[i] < 4 by {
                assert(pb[i] == b[i]);
            }
        }
        lemma_pack4_injective(pa, pb);
        assert(a =~= pa.push(a.last()));
        assert(b =~= pb.push(b.last()));
    } else {
        assert(a =~= b);
    }
}

/// Packs `digits`, each below four, into one key.
pub fn pack_digits(digits: &Vec<u8>) -> (key: u128)
    requires
        digits@.len() <= 63,
        forall|i: int| 0 <= i < digits@.len() ==> #[trigger] digits@[i] < 4,
    ensures
        key == pack4(digits@.map_values(|d: u8| d as nat)),
{
    let ghost all: Seq<nat> = digits@.map_values(|d: u8| d as nat);
    let mut key: u128 = 0;
    let mut k: usize = 0;
    while k < digits.len()
        invariant
            k <= digits@.len() <= 63,
            all == digits@.map_values(|d: u8| d as nat),
            forall|i: int| 0 <= i < digits@.len() ==> #[trigger] digits@[i] < 4,
            key == pack4(all.take(k as int)),
            key < pow4(k as nat),
        decreases digits@.len() - k,
    {
        proof {
            lemma_pow4_monotone(k as nat, 62);
            lemma_pow4_63();
            assert(pow4(63) == 4 * pow4(62)) by {
                reveal_with_fuel(pow4, 2);
            }
            assert(all.take(k + 1).drop_last() =~= all.take(k as int));
            assert(all.take(k + 1).last() == digits@[k as int] as nat);
            reveal_with_fuel(pow4, 2);
        }
        key = key * 4 + digits[k] as u128;
        k += 1;
    }
    proof {
        assert(all.take(k as int) =~= all);
    }
    key
}

} // verus!
