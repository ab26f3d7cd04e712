//! The combinations of item positions that greedy-k fixes, handed out one at
//! a time by `itertools`.

use itertools::Itertools;
use vstd::prelude::*;

verus! {

/// All ways to choose `k` of the positions `lo..n`, each as an ascending
/// sequence, in lexicographic order: first the combinations that hold `lo`,
/// then those that do not.
pub open spec fn lex_combinations(lo: usize, n: usize, k: nat) -> Seq<Seq<usize>>
    decreases n - lo,
{
    if k == 0 {
        seq![Seq::empty()]
    } else if lo >= n {
        Seq::empty()
    } else {
        lex_combinations((lo + 1) as usize, n, (k - 1) as nat).map_values(
            |rest: Seq<usize>| seq![lo] + rest,
        ) + lex_combinations((lo + 1) as usize, n, k)
    }
}

/// Whether `indices` holds `k` positions of `lo..n` in ascending order.
pub open spec fn is_combination(indices: Seq<usize>, lo: usize, n: usize, k: nat) -> bool {
    &&& indices.len() == k
    &&& forall|j: int| 0 <= j < k ==> lo <= #[trigger] indices[j] < n
    &&& forall|i: int, j: int| 0 <= i < j < k ==> indices[i] < indices[j]
}

/// Every entry of `lex_combinations(lo, n, k)` holds `k` positions of `lo..n`
/// in ascending order.
pub proof fn lemma_lex_combinations(lo: usize, n: usize, k: nat)
    ensures
        forall|i: int|
            0 <= i < lex_combinations(lo, n, k).len() ==> is_combination(
                #[trigger] lex_combinations(lo, n, k)[i],
                lo,
                n,
                k,
            ),
    decreases n - lo,
{
    if k > 0 && lo < n {
        let next = (lo + 1) as usize;
        let with = lex_combinations(next, n, (k - 1) as nat);
        let without = lex_combinations(next, n, k);
        lemma_lex_combinations(next, n, (k - 1) as nat);
        lemma_lex_combinations(next, n, k);
        let all = lex_combinations(lo, n, k);
        assert forall|i: int| 0 <= i < all.len() implies is_combination(
            #[trigger] all[i],
            lo,
            n,
            k,
        ) by {
            if i < with.len() {
                let rest = with[i];
                assert(is_combination(rest, next, n, (k - 1) as nat));
                assert(all[i] == seq![lo] + rest);
                assert forall|j: int| 0 <= j < k implies lo <= #[trigger] all[i][j] < n by {
                    if j > 0 {
                        assert(all[i][j] == rest[j - 1]);
                    }
                }
                assert forall|a: int, b: int| 0 <= a < b < k implies all[i][a] < all[i][b] by {
                    assert(all[i][b] == rest[b - 1]);
                    if a > 0 {
                        assert(all[i][a] == rest[a - 1]);
                    }
                }
            } else {
                assert(all[i] == without[i - with.len()]);
                assert(is_combination(without[i - with.len()], next, n, k));
            }
        }
    }
}

/// There is no way to choose more positions than there are.
pub proof fn lemma_lex_combinations_none(lo: usize, n: usize, k: nat)
    requires
        k > n - lo,
        k > 0,
    ensures
        lex_combinations(lo, n, k).len() == 0,
    decreases n - lo,
{
    if lo < n {
        let next = (lo + 1) as usize;
        if k > 1 {
            lemma_lex_combinations_none(next, n, (k - 1) as nat);
        }
        lemma_lex_combinations_none(next, n, k);
    }
}

/// The `k`-element combinations of the positions `0..n` that are still to
/// come: an `itertools::structs::Combinations` over the range `0..n`.
#[verifier::external_body]
pub struct IndexCombinations {
    inner: itertools::structs::Combinations<std::ops::Range<usize>>,
}

/// The combinations that `combinations` has yet to hand out, in the order in
/// which it hands them out.
pub uninterp spec fn pending(combinations: IndexCombinations) -> Seq<Seq<usize>>;

/// `(0..n).combinations(k)` of `itertools::Itertools`. The crate hands out
/// the combinations of positions in lexicographic order, each in ascending
/// order; for `k == 0` that is one empty combination. It keeps `k` positions
/// at hand from the start, so `k` is held to `n`.
#[verifier::external_body]
pub(crate) fn index_combinations(n: usize, k: usize) -> (combinations: IndexCombinations)
    requires
        k <= n,
    ensures
        pending(combinations) == lex_combinations(0, n, k as nat),
{
    IndexCombinations { inner: (0..n).combinations(k) }
}

/// `next` of `itertools::structs::Combinations`: the first of the pending
/// combinations, which is then no longer pending, or `None` when none is
/// pending.
#[verifier::external_body]
pub(crate) fn next_combination(combinations: &mut IndexCombinations) -> (next: Option<Vec<usize>>)
    ensures
        match next {
            Some(indices) => {
                &&& pending(*old(combinations)).len() > 0
                &&& indices@ == pending(*old(combinations))[0]
                &&& pending(*final(combinations)) == pending(*old(combinations)).drop_first()
            },
            None => {
                &&& pending(*old(combinations)).len() == 0
                &&& pending(*final(combinations)) == pending(*old(combinations))
            },
        },
{
    combinations.inner.next()
}

} // verus!
