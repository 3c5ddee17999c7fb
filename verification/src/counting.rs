use vstd::prelude::*;

verus! {

/// How many of the first `n` elements of `s` satisfy `p`.
pub open spec fn count_up_to<T>(s: Seq<T>, p: spec_fn(T) -> bool, n: int) -> int
    decreases n,
{
    if n <= 0 {
        0
    } else {
        count_up_to(s, p, n - 1) + if p(s[n - 1]) {
            1int
        } else {
            0int
        }
    }
}

/// How many elements of `s` satisfy `p`.
pub open spec fn count_in<T>(s: Seq<T>, p: spec_fn(T) -> bool) -> int {
    count_up_to(s, p, s.len() as int)
}

pub proof fn lemma_count_bounds<T>(s: Seq<T>, p: spec_fn(T) -> bool, n: int)
    requires
        0 <= n,
    ensures
        0 <= count_up_to(s, p, n) <= n,
    decreases n,
{
    if n > 0 {
        lemma_count_bounds(s, p, n - 1);
    }
}

/// Replacing the element at `k` moves the count by the difference of the
/// two membership tests.
pub proof fn lemma_count_update<T>(s: Seq<T>, p: spec_fn(T) -> bool, n: int, k: int, t: T)
    requires
        0 <= k < n,
        n <= s.len(),
    ensures
        count_up_to(s.update(k, t), p, n) == count_up_to(s, p, n) - (if p(s[k]) {
            1int
        } else {
            0int
        }) + (if p(t) {
            1int
        } else {
            0int
        }),
    decreases n,
{
    if k < n - 1 {
        lemma_count_update(s, p, n - 1, k, t);
    } else {
        lemma_count_agree(s.update(k, t), s, p, n - 1);
    }
}

/// Two sequences whose first `n` elements answer `p` alike count alike there.
pub proof fn lemma_count_agree<T>(s1: Seq<T>, s2: Seq<T>, p: spec_fn(T) -> bool, n: int)
    requires
        0 <= n <= s1.len(),
        n <= s2.len(),
        forall|i: int| 0 <= i < n ==> p(s1[i]) == p(s2[i]),
    ensures
        count_up_to(s1, p, n) == count_up_to(s2, p, n),
    decreases n,
{
    if n > 0 {
        lemma_count_agree(s1, s2, p, n - 1);
    }
}

/// A witness at `k` puts the count at one or more.
pub proof fn lemma_count_one_set<T>(s: Seq<T>, p: spec_fn(T) -> bool, n: int, k: int)
    requires
        0 <= k < n,
        n <= s.len(),
        p(s[k]),
    ensures
        count_up_to(s, p, n) >= 1,
    decreases n,
{
    lemma_count_bounds(s, p, n - 1);
    if k < n - 1 {
        lemma_count_one_set(s, p, n - 1, k);
    }
}

/// A non-witness at `k` keeps the count under `n`.
pub proof fn lemma_count_one_clear<T>(s: Seq<T>, p: spec_fn(T) -> bool, n: int, k: int)
    requires
        0 <= k < n,
        n <= s.len(),
        !p(s[k]),
    ensures
        count_up_to(s, p, n) <= n - 1,
    decreases n,
{
    lemma_count_bounds(s, p, n - 1);
    if k < n - 1 {
        lemma_count_one_clear(s, p, n - 1, k);
    }
}

/// With every one of the first `n` elements a witness the count is `n`.
pub proof fn lemma_count_full<T>(s: Seq<T>, p: spec_fn(T) -> bool, n: int)
    requires
        0 <= n <= s.len(),
        forall|i: int| 0 <= i < n ==> p(s[i]),
    ensures
        count_up_to(s, p, n) == n,
    decreases n,
{
    if n > 0 {
        lemma_count_full(s, p, n - 1);
    }
}

/// With no witness among the first `n` elements the count is zero.
pub proof fn lemma_count_zero<T>(s: Seq<T>, p: spec_fn(T) -> bool, n: int)
    requires
        0 <= n <= s.len(),
        forall|i: int| 0 <= i < n ==> !p(s[i]),
    ensures
        count_up_to(s, p, n) == 0,
    decreases n,
{
    if n > 0 {
        lemma_count_zero(s, p, n - 1);
    }
}

} // verus!
