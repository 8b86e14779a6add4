//! Comparing numbers limb by limb.

use crate::limbs::{
    lemma_value_bound, lemma_value_first, lemma_value_split, lemma_value_zero, lemma_zero_value,
    limbs_value, weight,
};
use vstd::prelude::*;

verus! {

/// Two numbers of one length whose limbs agree from limb `j + 1` on, and of
/// which the first has the smaller limb `j`: the first is the smaller.
pub proof fn lemma_value_less(a: Seq<u64>, b: Seq<u64>, j: int)
    requires
        a.len() == b.len(),
        0 <= j < a.len(),
        a[j] < b[j],
        forall|k: int| j < k < a.len() ==> a[k] == b[k],
    ensures
        limbs_value(a) < limbs_value(b),
{
    lemma_value_split(a, j);
    lemma_value_split(b, j);
    lemma_value_first(a.skip(j));
    lemma_value_first(b.skip(j));
    assert(a.skip(j).skip(1) =~= b.skip(j).skip(1));
    lemma_value_bound(a.take(j));
    let w = weight(j as nat) as int;
    let la = limbs_value(a.take(j)) as int;
    let lb = limbs_value(b.take(j)) as int;
    let x = a[j] as int;
    let y = b[j] as int;
    let h = limbs_value(a.skip(j).skip(1)) as int;
    assert(la + w * (x + 0x1_0000_0000_0000_0000 * h) < lb + w * (y + 0x1_0000_0000_0000_0000
        * h)) by (nonlinear_arith)
        requires
            0 <= la < w,
            0 <= lb,
            x < y,
    ;
}

/// Whether the number is zero.
pub fn is_zero_limbs<const N: usize>(a: &[u64; N]) -> (r: bool)
    ensures
        r == (limbs_value(a@) == 0),
{
    let mut i: usize = 0;
    while i < N
        invariant
            i <= N,
            forall|k: int| 0 <= k < i ==> a@[k] == 0,
        decreases N - i,
    {
        if a[i] != 0 {
            proof {
                if limbs_value(a@) == 0 {
                    lemma_zero_value(a@);
                }
            }
            return false;
        }
        i += 1;
    }
    proof {
        lemma_value_zero(a@);
    }
    true
}

/// Whether the first number is less than the second.
pub fn less_than<const N: usize>(a: &[u64; N], b: &[u64; N]) -> (r: bool)
    ensures
        r == (limbs_value(a@) < limbs_value(b@)),
{
    let mut i: usize = N;
    while i > 0
        invariant
            i <= N,
            forall|k: int| i <= k < N ==> a@[k] == b@[k],
        decreases i,
    {
        i -= 1;
        if a[i] < b[i] {
            proof {
                lemma_value_less(a@, b@, i as int);
            }
            return true;
        }
        if a[i] > b[i] {
            proof {
                lemma_value_less(b@, a@, i as int);
            }
            return false;
        }
    }
    assert(a@ =~= b@);
    false
}

/// The number of limbs up to the highest that is not zero: no limb is set
/// from there on, and the one just below is.
pub fn significant_limbs<const N: usize>(a: &[u64; N]) -> (n: usize)
    ensures
        n <= N,
        forall|k: int| n <= k < N ==> a@[k] == 0,
        n > 0 ==> a@[n - 1] != 0,
        limbs_value(a@) == limbs_value(a@.take(n as int)),
        n == 0 <==> limbs_value(a@) == 0,
{
    let mut n: usize = N;
    while n > 0 && a[n - 1] == 0
        invariant
            n <= N,
            forall|k: int| n <= k < N ==> a@[k] == 0,
        decreases n,
    {
        n -= 1;
    }
    proof {
        crate::limbs::lemma_value_zero_tail(a@, n as int);
        if n == 0 {
            lemma_value_zero(a@);
        } else if limbs_value(a@) == 0 {
            lemma_zero_value(a@);
        }
    }
    n
}

} // verus!
