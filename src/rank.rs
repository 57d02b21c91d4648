//! The combinatorial rank of an occupation state: its position in
//! lexicographic order, by a closed binomial sum.
use vstd::prelude::*;
use crate::occupation::{lemma_successor_ok, max_at, occupation_ok, pivot, successor};

verus! {

/// Lattice paths with `j` steps of one kind and `k` of the other:
/// `C(j + k, j)`.
pub open spec fn paths(j: nat, k: nat) -> nat
    decreases j + k,
{
    if j == 0 || k == 0 {
        1
    } else {
        paths((j - 1) as nat, k) + paths(j, (k - 1) as nat)
    }
}

/// The binomial coefficient `C(a, b)`.
pub open spec fn binom(a: nat, b: nat) -> nat {
    if b > a {
        0
    } else {
        paths(b, (a - b) as nat)
    }
}

/// `sum_i C(l - 1 - s[i], n - i)` over the orbitals of `s`, with `n = |s|`.
pub open spec fn tail_sum(s: Seq<usize>, l: nat) -> nat
    decreases s.len(),
{
    if s.len() == 0 {
        0
    } else {
        binom((l - 1 - s[0]) as nat, s.len()) + tail_sum(s.drop_first(), l)
    }
}

/// The 0-based position of `s` among the `C(l, n)` states in lexicographic
/// order: `C(l, n) - 1 - sum_i C(l - 1 - s[i], n - i)`.
pub open spec fn rank_of(s: Seq<usize>, l: nat) -> int {
    binom(l, s.len()) - 1 - tail_sum(s, l)
}

/// Pascal's rule.
pub proof fn lemma_pascal(a: nat, b: nat)
    requires
        b > 0,
    ensures
        binom(a + 1, b) == binom(a, b) + binom(a, (b - 1) as nat),
{
    if b > a + 1 {
    } else if b == a + 1 {
        assert(paths(b, 0) == 1);
        assert(paths((b - 1) as nat, 0) == 1);
    } else {
        assert(paths(b, (a + 1 - b) as nat) == paths((b - 1) as nat, (a + 1 - b) as nat) + paths(
            b,
            (a - b) as nat,
        ));
    }
}

/// More steps of either kind never give fewer paths.
pub proof fn lemma_paths_monotone(j: nat, k: nat, j2: nat, k2: nat)
    requires
        j <= j2,
        k <= k2,
    ensures
        paths(j, k) <= paths(j2, k2),
        paths(j, k) >= 1,
    decreases j2 + k2,
{
    if j2 == 0 || k2 == 0 {
    } else if j < j2 {
        lemma_paths_monotone(j, k, (j2 - 1) as nat, k2);
    } else if k < k2 {
        lemma_paths_monotone(j, k, j2, (k2 - 1) as nat);
    } else {
        lemma_paths_monotone((j - 1) as nat, k, (j - 1) as nat, k);
    }
}

/// `C(a, b)` grows with `a`.
pub proof fn lemma_binom_monotone(a: nat, a2: nat, b: nat)
    requires
        a <= a2,
    ensures
        binom(a, b) <= binom(a2, b),
{
    if b <= a {
        lemma_paths_monotone(b, (a - b) as nat, b, (a2 - b) as nat);
    }
}

/// The sum of a valid suffix stays below the binomial that counts the
/// states of its size above its first orbital.
proof fn lemma_tail_sum_bound(s: Seq<usize>, l: nat)
    requires
        s.len() > 0,
        forall|i: int, j: int| 0 <= i < j < s.len() ==> s[i] < s[j],
        forall|i: int| 0 <= i < s.len() ==> s[i] < l,
    ensures
        tail_sum(s, l) + 1 <= binom((l - s[0]) as nat, s.len()),
    decreases s.len(),
{
    let n = s.len();
    let a = (l - 1 - s[0]) as nat;
    lemma_pascal(a, n);
    if n == 1 {
        assert(tail_sum(s.drop_first(), l) == 0);
        assert(binom(a, 0) == 1);
    } else {
        let t = s.drop_first();
        assert(t[0] == s[1]);
        assert(s[0] < s[1]);
        lemma_tail_sum_bound(t, l);
        lemma_binom_monotone((l - t[0]) as nat, a, (n - 1) as nat);
    }
}

/// A suffix sums to no more than the whole.
proof fn lemma_tail_sum_skip(s: Seq<usize>, l: nat, i: int)
    requires
        0 <= i <= s.len(),
    ensures
        tail_sum(s.skip(i), l) <= tail_sum(s, l),
    decreases i,
{
    if i == 0 {
        assert(s.skip(0) =~= s);
    } else {
        lemma_tail_sum_skip(s, l, i - 1);
        assert(s.skip(i - 1).drop_first() =~= s.skip(i));
    }
}

/// A valid state has a rank in `[0, C(l, n))`.
pub proof fn lemma_rank_range(s: Seq<usize>, n: nat, l: nat)
    requires
        occupation_ok(s, n, l),
    ensures
        0 <= rank_of(s, l) < binom(l, n),
{
    if n > 0 {
        lemma_tail_sum_bound(s, l);
        lemma_binom_monotone((l - s[0]) as nat, l, n);
    } else {
        assert(binom(l, 0) == 1);
    }
}

/// A run `x, x + 1, ..., x + m - 1` sums to `C(l - x, m) - 1`.
proof fn lemma_tail_sum_run(v: Seq<usize>, l: nat, x: nat)
    requires
        x + v.len() <= l,
        forall|j: int| 0 <= j < v.len() ==> v[j] == x + j,
    ensures
        tail_sum(v, l) + 1 == binom((l - x) as nat, v.len()),
    decreases v.len(),
{
    let m = v.len();
    if m == 0 {
        assert(binom((l - x) as nat, 0) == 1);
    } else {
        let w = v.drop_first();
        lemma_tail_sum_run(w, l, x + 1);
        lemma_pascal((l - x - 1) as nat, m);
    }
}

/// A suffix whose orbitals all sit at their maxima sums to 0.
proof fn lemma_tail_sum_at_max(w: Seq<usize>, l: nat)
    requires
        w.len() <= l,
        forall|j: int| 0 <= j < w.len() ==> w[j] == l - w.len() + j,
    ensures
        tail_sum(w, l) == 0,
    decreases w.len(),
{
    if w.len() > 0 {
        let u = w.drop_first();
        assert forall|j: int| 0 <= j < u.len() implies u[j] == l - u.len() + j by {
            assert(u[j] == w[j + 1]);
        }
        lemma_tail_sum_at_max(u, l);
    }
}

/// Two states that agree before position `p` differ in their sums only by
/// what their suffixes from `p` on contribute.
proof fn lemma_tail_sum_common_prefix(s: Seq<usize>, t: Seq<usize>, l: nat, p: int)
    requires
        s.len() == t.len(),
        0 <= p <= s.len(),
        forall|j: int| 0 <= j < p ==> s[j] == t[j],
    ensures
        tail_sum(s, l) - tail_sum(s.skip(p), l) == tail_sum(t, l) - tail_sum(t.skip(p), l),
    decreases p,
{
    if p == 0 {
        assert(s.skip(0) =~= s);
        assert(t.skip(0) =~= t);
    } else {
        lemma_tail_sum_common_prefix(s.drop_first(), t.drop_first(), l, p - 1);
        assert(s.drop_first().skip(p - 1) =~= s.skip(p));
        assert(t.drop_first().skip(p - 1) =~= t.skip(p));
    }
}

/// The first state, `0, 1, ..., n - 1`, has rank 0.
pub proof fn lemma_rank_first(s: Seq<usize>, n: nat, l: nat)
    requires
        n <= l,
        s.len() == n,
        forall|j: int| 0 <= j < n ==> s[j] == j,
    ensures
        rank_of(s, l) == 0,
{
    lemma_tail_sum_run(s, l, 0);
}

/// The last state, `l - n, ..., l - 1`, has rank `C(l, n) - 1`.
pub proof fn lemma_rank_last(s: Seq<usize>, n: nat, l: nat)
    requires
        occupation_ok(s, n, l),
        forall|j: int| 0 <= j < n ==> s[j] == max_at(j, n, l),
    ensures
        rank_of(s, l) == binom(l, n) - 1,
{
    lemma_rank_range(s, n, l);
    lemma_tail_sum_at_max(s, l);
}

/// Rank agrees with the successor order: the state after `s` has the next
/// rank.
pub proof fn lemma_rank_successor(s: Seq<usize>, n: nat, l: nat)
    requires
        occupation_ok(s, n, l),
        l <= usize::MAX,
        successor(s, l) is Some,
    ensures
        rank_of(successor(s, l)->0, l) == rank_of(s, l) + 1,
{
    let t = successor(s, l)->0;
    let p = pivot(s, l, n as int);
    crate::occupation::lemma_pivot_facts(s, n, l);
    lemma_tail_sum_common_prefix(s, t, l, p);
    let u = s.skip(p);
    let v = t.skip(p);
    let m = (n - p) as nat;
    let c = s[p];
    let w = u.drop_first();
    assert forall|j: int| 0 <= j < w.len() implies w[j] == l - w.len() + j by {
        assert(w[j] == s[p + 1 + j]);
    }
    lemma_tail_sum_at_max(w, l);
    assert forall|j: int| 0 <= j < v.len() implies v[j] == (c + 1) + j by {
        assert(v[j] == t[p + j]);
        assert(c + 1 + j < l);
    }
    lemma_tail_sum_run(v, l, (c + 1) as nat);
}

/// The state reached from the first state `0, 1, ..., n - 1` by `k`
/// successor steps, or `None` where the order ends before.
pub open spec fn sd_chain(n: nat, l: nat, k: nat) -> Option<Seq<usize>>
    decreases k,
{
    if k == 0 {
        Some(Seq::new(n, |i: int| i as usize))
    } else {
        match sd_chain(n, l, (k - 1) as nat) {
            Some(s) => successor(s, l),
            None => None,
        }
    }
}

/// Successor enumeration is a bijection onto the ranks: starting from
/// `0, 1, ..., n - 1`, the `k`-th state exists for every `k < C(l, n)`,
/// is a valid state and has rank `k`; the order ends after it exactly when
/// `k = C(l, n) - 1`, and then at the last state `l - n, ..., l - 1`.
pub proof fn lemma_successor_chain(n: nat, l: nat, k: nat)
    requires
        n <= l <= usize::MAX,
        k < binom(l, n),
    ensures
        sd_chain(n, l, k) is Some,
        occupation_ok(sd_chain(n, l, k)->0, n, l),
        rank_of(sd_chain(n, l, k)->0, l) == k,
        successor(sd_chain(n, l, k)->0, l) is None <==> k + 1 == binom(l, n),
        k + 1 == binom(l, n) ==> forall|i: int|
            0 <= i < n ==> (sd_chain(n, l, k)->0)[i] == max_at(i, n, l),
    decreases k,
{
    if k == 0 {
        let s = Seq::new(n, |i: int| i as usize);
        assert(occupation_ok(s, n, l));
        lemma_rank_first(s, n, l);
    } else {
        lemma_successor_chain(n, l, (k - 1) as nat);
        let s = sd_chain(n, l, (k - 1) as nat)->0;
        lemma_successor_ok(s, n, l);
        lemma_rank_successor(s, n, l);
    }
    let t = sd_chain(n, l, k)->0;
    lemma_successor_ok(t, n, l);
    lemma_rank_range(t, n, l);
    if successor(t, l) is None {
        lemma_rank_last(t, n, l);
    } else {
        lemma_rank_successor(t, n, l);
        lemma_rank_range(successor(t, l)->0, n, l);
    }
}

/// Successor enumeration repeats no state: the states `i` and `j` steps
/// after the first differ whenever `i != j`, below `C(l, n)`.
pub proof fn lemma_successor_chain_distinct(n: nat, l: nat, i: nat, j: nat)
    requires
        n <= l <= usize::MAX,
        i < binom(l, n),
        j < binom(l, n),
        i != j,
    ensures
        sd_chain(n, l, i)->0 != sd_chain(n, l, j)->0,
{
    lemma_successor_chain(n, l, i);
    lemma_successor_chain(n, l, j);
}

/// `C(a, b)`, or `None` where it does not fit a `usize`. It is computed
/// over a row of lattice-path counts, each of which is at most the result.
pub fn checked_binomial(a: usize, b: usize) -> (r: Option<usize>)
    ensures
        r is Some <==> binom(a as nat, b as nat) <= usize::MAX,
        r matches Some(v) ==> v == binom(a as nat, b as nat),
{
    if b > a {
        return Some(0);
    }
    if b == 0 {
        return Some(1);
    }
    let width = a - b;
    let ghost target = paths(b as nat, width as nat);
    let mut row: Vec<usize> = Vec::new();
    let mut k: usize = 0;
    while k <= width
        invariant
            k <= width + 1,
            width == a - b,
            width < usize::MAX,
            row@.len() == k,
            forall|t: int| 0 <= t < k ==> row@[t] == 1,
        decreases width + 1 - k,
    {
        row.push(1);
        k += 1;
    }
    assert forall|t: int| 0 <= t <= width implies row@[t] == paths(0, t as nat) by {}
    let mut j: usize = 0;
    while j < b
        invariant
            j <= b,
            width == a - b,
            width < usize::MAX,
            target == paths(b as nat, width as nat),
            row@.len() == width + 1,
            forall|t: int| 0 <= t <= width ==> row@[t] == paths(j as nat, t as nat),
        decreases b - j,
    {
        let mut k: usize = 1;
        while k <= width
            invariant
                j < b,
                1 <= k <= width + 1,
                width == a - b,
                width < usize::MAX,
                target == paths(b as nat, width as nat),
                row@.len() == width + 1,
                row@[0] == 1,
                forall|t: int| 0 < t < k ==> row@[t] == paths((j + 1) as nat, t as nat),
                forall|t: int| k <= t <= width ==> row@[t] == paths(j as nat, t as nat),
            decreases width + 1 - k,
        {
            proof {
                lemma_paths_monotone((j + 1) as nat, k as nat, b as nat, width as nat);
                assert(paths((j + 1) as nat, (k - 1) as nat) == row@[k - 1]) by {
                    if k == 1 {
                        assert(paths((j + 1) as nat, 0) == 1);
                    }
                }
            }
            match row[k].checked_add(row[k - 1]) {
                Some(v) => row.set(k, v),
                None => return None,
            }
            k += 1;
        }
        proof {
            assert forall|t: int| 0 <= t <= width implies row@[t] == paths((j + 1) as nat, t as nat) by {
                if t == 0 {
                    assert(paths((j + 1) as nat, 0) == 1);
                }
            }
        }
        j += 1;
    }
    Some(row[width])
}

/// `C(a, b)`, where it fits a `usize`.
pub fn binomial(a: usize, b: usize) -> (r: usize)
    requires
        binom(a as nat, b as nat) <= usize::MAX,
    ensures
        r == binom(a as nat, b as nat),
{
    match checked_binomial(a, b) {
        Some(v) => v,
        None => 0,
    }
}

/// The position of `state` among all states of `n` orbitals out of `l` in
/// lexicographic order.
pub fn sd_rank(state: &Vec<usize>, n: usize, l: usize) -> (r: usize)
    requires
        occupation_ok(state@, n as nat, l as nat),
        binom(l as nat, n as nat) <= usize::MAX,
    ensures
        r == rank_of(state@, l as nat),
        r < binom(l as nat, n as nat),
{
    proof {
        lemma_rank_range(state@, n as nat, l as nat);
    }
    let total = binomial(l, n);
    let mut sum: usize = 0;
    let mut i: usize = n;
    proof {
        assert(state@.skip(n as int) =~= Seq::<usize>::empty());
    }
    while i > 0
        invariant
            i <= n,
            state@.len() == n,
            occupation_ok(state@, n as nat, l as nat),
            total == binom(l as nat, n as nat),
            tail_sum(state@, l as nat) + 1 <= total,
            sum == tail_sum(state@.skip(i as int), l as nat),
        decreases i,
    {
        let j = i - 1;
        proof {
            lemma_tail_sum_skip(state@, l as nat, j as int);
            assert(state@.skip(j as int).drop_first() =~= state@.skip(i as int));
            assert(state@.skip(j as int)[0] == state@[j as int]);
        }
        let term = binomial(l - 1 - state[j], n - j);
        sum = sum + term;
        i = j;
    }
    proof {
        assert(state@.skip(0) =~= state@);
    }
    total - 1 - sum
}

/// `sum_j C(l - 1 - s[j], n - j)` over a prefix `s` of an `n`-orbital state.
pub open spec fn head_sum(s: Seq<usize>, n: nat, l: nat) -> nat
    decreases s.len(),
{
    if s.len() == 0 {
        0
    } else {
        head_sum(s.drop_last(), n, l) + binom((l - 1 - s.last()) as nat, (n - (s.len() - 1)) as nat)
    }
}

proof fn lemma_head_sum_first(s: Seq<usize>, n: nat, l: nat)
    requires
        s.len() >= 1,
        s.len() <= n,
    ensures
        head_sum(s, n, l) == binom((l - 1 - s[0]) as nat, n) + head_sum(
            s.drop_first(),
            (n - 1) as nat,
            l,
        ),
    decreases s.len(),
{
    if s.len() > 1 {
        lemma_head_sum_first(s.drop_last(), n, l);
        assert(s.drop_last().drop_first() =~= s.drop_first().drop_last());
        assert(s.drop_first().last() == s.last());
        assert(s.drop_last()[0] == s[0]);
        let t = s.drop_first();
        let m = (n - 1) as nat;
        assert(head_sum(t, m, l) == head_sum(t.drop_last(), m, l) + binom(
            (l - 1 - t.last()) as nat,
            (m - (t.len() - 1)) as nat,
        ));
        assert(head_sum(s, n, l) == head_sum(s.drop_last(), n, l) + binom(
            (l - 1 - s.last()) as nat,
            (n - (s.len() - 1)) as nat,
        ));
        assert((m - (t.len() - 1)) as nat == (n - (s.len() - 1)) as nat);
    } else {
        assert(s.drop_last() =~= Seq::<usize>::empty());
        assert(s.drop_first() =~= Seq::<usize>::empty());
        assert(head_sum(s.drop_last(), n, l) == 0);
        assert(head_sum(s.drop_first(), (n - 1) as nat, l) == 0);
        assert(s.last() == s[0]);
        assert(head_sum(s, n, l) == head_sum(s.drop_last(), n, l) + binom(
            (l - 1 - s.last()) as nat,
            (n - (s.len() - 1)) as nat,
        ));
    }
}

proof fn lemma_head_sum_whole(s: Seq<usize>, l: nat)
    ensures
        head_sum(s, s.len(), l) == tail_sum(s, l),
    decreases s.len(),
{
    if s.len() > 0 {
        lemma_head_sum_first(s, s.len(), l);
        lemma_head_sum_whole(s.drop_first(), l);
    }
}

/// Binomials of a smaller state count fit under `C(l, n)`.
proof fn lemma_binom_le(d: nat, k: nat, l: nat, n: nat)
    requires
        k <= n <= l,
        d <= k || d - k <= l - n,
    ensures
        binom(d, k) <= binom(l, n),
{
    if k <= d {
        lemma_paths_monotone(k, (d - k) as nat, n, (l - n) as nat);
    }
}

/// The state of `n` orbitals out of `l` whose rank is `k`: the inverse of
/// `sd_rank`, found orbital by orbital from the binomial sum.
pub fn sd_unrank(k: usize, n: usize, l: usize) -> (r: Vec<usize>)
    requires
        n <= l,
        binom(l as nat, n as nat) <= usize::MAX,
        k < binom(l as nat, n as nat),
    ensures
        occupation_ok(r@, n as nat, l as nat),
        rank_of(r@, l as nat) == k,
{
    let total = binomial(l, n);
    let ghost target = (total - 1 - k) as nat;
    let mut rem: usize = total - 1 - k;
    let mut out: Vec<usize> = Vec::new();
    let mut hi: usize = l;
    let mut i: usize = 0;
    while i < n
        invariant
            i <= n <= l,
            total == binom(l as nat, n as nat),
            total <= usize::MAX,
            out@.len() == i,
            hi + i <= l,
            hi >= n - i,
            i > 0 ==> out@[i - 1] == l - 1 - hi,
            forall|a: int, b: int| 0 <= a < b < i ==> out@[a] < out@[b],
            forall|a: int| 0 <= a < i ==> out@[a] < l,
            rem < binom(hi as nat, (n - i) as nat),
            head_sum(out@, n as nat, l as nat) + rem == target,
        decreases n - i,
    {
        let kk = n - i;
        let mut d: usize = hi - 1;
        proof {
            lemma_binom_le(d as nat, kk as nat, l as nat, n as nat);
        }
        while binomial(d, kk) > rem
            invariant
                kk == n - i,
                1 <= kk,
                kk - 1 <= d < hi,
                hi + i <= l,
                i < n <= l,
                total == binom(l as nat, n as nat),
                total <= usize::MAX,
                rem < binom((d + 1) as nat, kk as nat),
                binom(d as nat, kk as nat) <= usize::MAX,
            decreases d,
        {
            assert(binom((kk - 1) as nat, kk as nat) == 0);
            d = d - 1;
            proof {
                lemma_binom_le(d as nat, kk as nat, l as nat, n as nat);
            }
        }
        proof {
            lemma_pascal(d as nat, kk as nat);
        }
        let ghost before = out@;
        out.push(l - 1 - d);
        proof {
            assert(out@.drop_last() =~= before);
        }
        rem = rem - binomial(d, kk);
        hi = d;
        i += 1;
    }
    proof {
        assert(binom(hi as nat, 0) == 1);
        lemma_head_sum_whole(out@, l as nat);
    }
    out
}

} // verus!
