use vstd::prelude::*;

verus! {

/// The sum of the first `n` elements of `s`.
pub open spec fn sum_prefix(s: Seq<usize>, n: int) -> int
    decreases n,
{
    if n <= 0 {
        0
    } else {
        sum_prefix(s, n - 1) + s[n - 1] as int
    }
}

/// The sum of all elements of `s`.
pub open spec fn seq_sum(s: Seq<usize>) -> int {
    sum_prefix(s, s.len() as int)
}

/// The even split of `sum` into `buckets` parts: the first `sum % buckets`
/// parts get one more than the others.
pub open spec fn even_share(buckets: int, sum: int, i: int) -> int {
    if i < sum % buckets {
        sum / buckets + 1
    } else {
        sum / buckets
    }
}

proof fn lemma_sum_prefix_bounds(s: Seq<usize>, n: int, buckets: int, sum: int)
    requires
        buckets > 0,
        sum >= 0,
        0 <= n <= s.len(),
        forall|i: int| 0 <= i < s.len() ==> s[i] as int == even_share(buckets, sum, i),
    ensures
        sum_prefix(s, n) == n * (sum / buckets) + if n < sum % buckets {
            n
        } else {
            sum % buckets
        },
    decreases n,
{
    let q = sum / buckets;
    let r = sum % buckets;
    if n > 0 {
        lemma_sum_prefix_bounds(s, n - 1, buckets, sum);
        assert(s[n - 1] as int == even_share(buckets, sum, n - 1));
        assert((n - 1) * q + q == n * q) by (nonlinear_arith);
        assert(sum_prefix(s, n) == sum_prefix(s, n - 1) + s[n - 1] as int);
        if n - 1 < r {
            assert(s[n - 1] as int == q + 1);
        } else {
            assert(s[n - 1] as int == q);
        }
    } else {
        assert(n * q == 0) by (nonlinear_arith)
            requires n == 0;
    }
}

/// Splits `sum` into `buckets` parts that add up to `sum` and differ by at
/// most one; the larger parts come first.
pub fn get_even_partition(buckets: usize, sum: usize) -> (v: Vec<usize>)
    requires
        buckets > 0,
    ensures
        v@.len() == buckets,
        forall|i: int| 0 <= i < buckets ==> v@[i] as int == even_share(buckets as int, sum as int, i),
        seq_sum(v@) == sum,
{
    let base: usize = sum / buckets;
    let extra: usize = sum % buckets;
    let mut v: Vec<usize> = Vec::new();
    let mut i: usize = 0;
    while i < buckets
        invariant
            i <= buckets,
            base == sum / buckets,
            extra == sum % buckets,
            v@.len() == i,
            forall|j: int| 0 <= j < i ==> v@[j] as int == even_share(buckets as int, sum as int, j),
        decreases buckets - i,
    {
        if i < extra {
            assert(base < sum) by (nonlinear_arith)
                requires base == sum / buckets, extra == sum % buckets, i < extra, buckets > 0;
            v.push(base + 1);
        } else {
            v.push(base);
        }
        i = i + 1;
    }
    proof {
        lemma_sum_prefix_bounds(v@, buckets as int, buckets as int, sum as int);
        assert(sum % buckets < buckets);
        assert(buckets * (sum / buckets) + sum % buckets == sum) by (nonlinear_arith)
            requires buckets > 0;
    }
    v
}

} // verus!
