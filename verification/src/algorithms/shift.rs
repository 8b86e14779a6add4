//! Moving a number up or down by whole limbs.

use crate::limbs::{
    lemma_value_split, lemma_value_zero, lemma_value_zero_tail, limbs_value, weight,
};
use vstd::prelude::*;

verus! {

/// Moves the limbs up by `count` places. Returns the limbs that stay, with
/// zeros below them, and whether a limb that is not zero was pushed out at
/// the top.
pub fn shl_limbs<const N: usize>(a: &[u64; N], count: usize) -> (r: ([u64; N], bool))
    requires
        count <= N,
    ensures
        limbs_value(r.0@) + weight(N as nat) * limbs_value(a@.skip(N - count)) == limbs_value(a@)
            * weight(count as nat),
        r.1 == (limbs_value(a@.skip(N - count)) != 0),
{
    let mut out = [0u64; N];
    let mut i: usize = count;
    while i < N
        invariant
            count <= i <= N,
            forall|k: int| 0 <= k < count ==> out@[k] == 0,
            forall|k: int| count <= k < i ==> out@[k] == a@[k - count],
        decreases N - i,
    {
        out[i] = a[i - count];
        i += 1;
    }
    let mut lost = false;
    let mut j: usize = N - count;
    while j < N
        invariant
            N - count <= j <= N,
            lost == exists|k: int| N - count <= k < j && a@[k] != 0,
        decreases N - j,
    {
        if a[j] != 0 {
            lost = true;
        }
        j += 1;
    }
    proof {
        let low = a@.take(N - count);
        let high = a@.skip(N - count);
        lemma_value_split(a@, N - count);
        lemma_value_split(out@, count as int);
        assert(out@.skip(count as int) =~= low);
        lemma_value_zero(out@.take(count as int));
        crate::limbs::lemma_weight_adds(count as nat, (N - count) as nat);
        let wc = weight(count as nat) as int;
        let wr = weight((N - count) as nat) as int;
        let l = limbs_value(low) as int;
        let h = limbs_value(high) as int;
        assert(wc * l + (wc * wr) * h == (l + wr * h) * wc) by (nonlinear_arith);
        if lost {
            let k = choose|k: int| N - count <= k < N && a@[k] != 0;
            assert(high[k - (N - count)] == a@[k]);
            if h == 0 {
                crate::limbs::lemma_zero_value(high);
            }
        } else {
            assert forall|k: int| 0 <= k < high.len() implies high[k] == 0 by {
                assert(high[k] == a@[k + (N - count)]);
            }
            lemma_value_zero(high);
        }
    }
    (out, lost)
}

/// Moves the limbs down by `count` places. Returns the limbs that stay,
/// with zeros above them, and whether a limb that is not zero was pushed
/// out at the bottom.
pub fn shr_limbs<const N: usize>(a: &[u64; N], count: usize) -> (r: ([u64; N], bool))
    requires
        count <= N,
    ensures
        limbs_value(a@) == limbs_value(a@.take(count as int)) + weight(count as nat) * limbs_value(
            r.0@,
        ),
        r.1 == (limbs_value(a@.take(count as int)) != 0),
{
    let mut out = [0u64; N];
    let mut i: usize = 0;
    while i < N - count
        invariant
            i <= N - count,
            count <= N,
            forall|k: int| 0 <= k < i ==> out@[k] == a@[k + count],
            forall|k: int| i <= k < N ==> out@[k] == 0,
        decreases N - count - i,
    {
        out[i] = a[i + count];
        i += 1;
    }
    let mut lost = false;
    let mut j: usize = 0;
    while j < count
        invariant
            j <= count <= N,
            lost == exists|k: int| 0 <= k < j && a@[k] != 0,
        decreases count - j,
    {
        if a[j] != 0 {
            lost = true;
        }
        j += 1;
    }
    proof {
        let low = a@.take(count as int);
        lemma_value_split(a@, count as int);
        lemma_value_zero_tail(out@, N - count);
        assert(out@.take(N - count) =~= a@.skip(count as int));
        if lost {
            let k = choose|k: int| 0 <= k < count && a@[k] != 0;
            assert(low[k] == a@[k]);
            if limbs_value(low) == 0 {
                crate::limbs::lemma_zero_value(low);
            }
        } else {
            lemma_value_zero(low);
        }
    }
    (out, lost)
}

} // verus!
