//! Fermionic occupation states: strictly increasing tuples of `n` orbitals
//! out of `l`, enumerated in lexicographic order.
use vstd::prelude::*;
use crate::error::BasisError;

verus! {

/// `s` holds `n` strictly increasing orbitals, each below `l`.
pub open spec fn occupation_ok(s: Seq<usize>, n: nat, l: nat) -> bool {
    &&& s.len() == n
    &&& forall|i: int, j: int| 0 <= i < j < s.len() ==> s[i] < s[j]
    &&& forall|i: int| 0 <= i < s.len() ==> s[i] < l
}

/// The largest orbital that position `i` of an `n`-orbital state can hold.
pub open spec fn max_at(i: int, n: nat, l: nat) -> int {
    l - n + i
}

/// The right-most position below `j` whose orbital is under its maximum,
/// or `-1` where there is none.
pub open spec fn pivot(s: Seq<usize>, l: nat, j: int) -> int
    decreases j,
{
    if j <= 0 {
        -1
    } else if s[j - 1] < max_at(j - 1, s.len(), l) {
        j - 1
    } else {
        pivot(s, l, j - 1)
    }
}

/// The state after `s` in lexicographic order, or `None` where `s` is the last.
/// The orbital at the pivot moves up by one and the orbitals after it follow
/// consecutively.
pub open spec fn successor(s: Seq<usize>, l: nat) -> Option<Seq<usize>> {
    let p = pivot(s, l, s.len() as int);
    if p < 0 {
        None
    } else {
        Some(Seq::new(s.len(), |j: int| if j < p { s[j] } else { (s[p] + 1 + (j - p)) as usize }))
    }
}

/// The consecutive orbitals `start, start + 1, ..., start + n - 1`, or
/// `ConfigurationError` where `start + n >= l`.
pub fn init_sd_state(start: usize, n: usize, l: usize) -> (r: Result<Vec<usize>, BasisError>)
    ensures
        start + n >= l <==> r is Err,
        r is Err ==> r == Err::<Vec<usize>, BasisError>(BasisError::ConfigurationError),
        r matches Ok(v) ==> v@ == Seq::new(n as nat, |i: int| (start + i) as usize),
        r matches Ok(v) ==> occupation_ok(v@, n as nat, l as nat),
{
    if start >= l || n >= l - start {
        return Err(BasisError::ConfigurationError);
    }
    let mut v: Vec<usize> = Vec::new();
    let mut i: usize = 0;
    while i < n
        invariant
            i <= n,
            start + n < l,
            v@ == Seq::new(i as nat, |j: int| (start + j) as usize),
        decreases n - i,
    {
        v.push(start + i);
        i += 1;
    }
    Ok(v)
}

/// The single excitations of `s` from position `i` and created orbital `p`
/// on: for each occupied position in turn, each unoccupied orbital in
/// increasing order, as (sign, annihilated orbital, created orbital, state).
pub open spec fn excitations_from(s: Seq<usize>, l: nat, i: nat, p: nat) -> Seq<
    (int, usize, usize, Seq<usize>),
>
    decreases s.len() - i, l - p,
{
    if i >= s.len() {
        Seq::empty()
    } else if p >= l {
        excitations_from(s, l, i + 1, 0)
    } else if s.contains(p as usize) {
        excitations_from(s, l, i, p + 1)
    } else {
        seq![(excitation_sign(s, s[i as int], p as usize), s[i as int], p as usize, excite(s, i as int, p as usize))]
            + excitations_from(s, l, i, p + 1)
    }
}

/// Whether orbital `x` is occupied in `state`.
pub fn is_occupied(state: &Vec<usize>, x: usize) -> (r: bool)
    ensures
        r == state@.contains(x),
{
    let mut j: usize = 0;
    while j < state.len()
        invariant
            j <= state@.len(),
            forall|t: int| 0 <= t < j ==> state@[t] != x,
        decreases state@.len() - j,
    {
        if state[j] == x {
            return true;
        }
        j += 1;
    }
    false
}

/// Enumerates, lazily and once, the single excitations of an occupation
/// state: each occupied orbital `q` moved to each unoccupied orbital `p`,
/// with the fermionic sign of the move.
pub struct SdOneBodyIterator {
    state: Vec<usize>,
    n: usize,
    l: usize,
    pos: usize,
    orbital: usize,
}

impl SdOneBodyIterator {
    /// The state whose excitations are enumerated.
    pub closed spec fn start(&self) -> Seq<usize> {
        self.state@
    }

    /// The excitations still to come, in order.
    pub closed spec fn rest(&self) -> Seq<(int, usize, usize, Seq<usize>)> {
        excitations_from(self.state@, self.l as nat, self.pos as nat, self.orbital as nat)
    }

    /// The state is valid and the cursor lies in range.
    pub closed spec fn wf(&self) -> bool {
        &&& occupation_ok(self.state@, self.n as nat, self.l as nat)
        &&& self.pos <= self.n
        &&& self.orbital <= self.l
    }

    /// All single excitations of `state`, a state of `n` orbitals out of `l`.
    pub fn new(state: Vec<usize>, n: usize, l: usize) -> (r: Self)
        requires
            occupation_ok(state@, n as nat, l as nat),
        ensures
            r.wf(),
            r.start() == state@,
            r.rest() == excitations_from(state@, l as nat, 0, 0),
    {
        SdOneBodyIterator { state, n, l, pos: 0, orbital: 0 }
    }

    /// The next excitation as (sign, annihilated orbital, created orbital,
    /// new state), or `None` once all have been produced.
    pub fn next(&mut self) -> (r: Option<(i64, usize, usize, Vec<usize>)>)
        requires
            old(self).wf(),
        ensures
            final(self).wf(),
            final(self).start() == old(self).start(),
            old(self).rest().len() == 0 ==> r is None && final(self).rest().len() == 0,
            old(self).rest().len() > 0 ==> (r matches Some(item) && item.0 == old(self).rest()[0].0
                && item.1 == old(self).rest()[0].1 && item.2 == old(self).rest()[0].2
                && item.3@ == old(self).rest()[0].3
                && final(self).rest() == old(self).rest().drop_first()),
    {
        let ghost rest0 = self.rest();
        loop
            invariant
                self.wf(),
                self.state@ == old(self).state@,
                rest0 == old(self).rest(),
                self.rest() == rest0,
            decreases self.n - self.pos, self.l - self.orbital,
        {
            if self.pos >= self.n {
                return None;
            }
            if self.orbital >= self.l {
                self.pos = self.pos + 1;
                self.orbital = 0;
            } else {
                let p = self.orbital;
                self.orbital = p + 1;
                if !is_occupied(&self.state, p) {
                    let (sign, excited) = single_excitation(&self.state, self.n, self.l, self.pos, p);
                    let q = self.state[self.pos];
                    proof {
                        let item = rest0[0];
                        assert(rest0 =~= seq![item] + self.rest());
                        assert(self.rest() =~= rest0.drop_first());
                    }
                    return Some((sign, q, p, excited));
                }
            }
        }
    }
}

/// Where `pivot` finds nothing, every orbital sits at its maximum.
proof fn lemma_pivot_none(s: Seq<usize>, l: nat, j: int)
    requires
        0 <= j <= s.len(),
    ensures
        pivot(s, l, j) < j,
        pivot(s, l, j) >= -1,
        pivot(s, l, j) < 0 ==> forall|i: int| 0 <= i < j ==> s[i] >= max_at(i, s.len(), l),
        pivot(s, l, j) >= 0 ==> s[pivot(s, l, j)] < max_at(pivot(s, l, j), s.len(), l),
        forall|i: int| pivot(s, l, j) < i < j ==> s[i] >= max_at(i, s.len(), l),
    decreases j,
{
    if j > 0 {
        lemma_pivot_none(s, l, j - 1);
    }
}

/// The next state after `state` in lexicographic order, or `None` where
/// `state` is the last one, `l - n, ..., l - 1`.
pub fn next_sd_state(state: &Vec<usize>, n: usize, l: usize) -> (r: Option<Vec<usize>>)
    requires
        occupation_ok(state@, n as nat, l as nat),
    ensures
        r is None <==> (forall|i: int| 0 <= i < n ==> state@[i] == max_at(i, n as nat, l as nat)),
        r is None <==> successor(state@, l as nat) is None,
        r matches Some(v) ==> successor(state@, l as nat) == Some(v@),
        r matches Some(v) ==> occupation_ok(v@, n as nat, l as nat),
{
    proof {
        lemma_occupation_bounds(state@, n as nat, l as nat);
        lemma_pivot_none(state@, l as nat, n as int);
    }
    let ghost p = pivot(state@, l as nat, n as int);
    let mut cursor: usize = n;
    while cursor > 0 && state[cursor - 1] >= l - n + (cursor - 1)
        invariant
            cursor <= n,
            n <= l,
            state@.len() == n,
            pivot(state@, l as nat, cursor as int) == p,
        decreases cursor,
    {
        cursor -= 1;
    }
    if cursor == 0 {
        return None;
    }
    let c = cursor - 1;
    let first = state[c] + 1;
    let mut v = state.clone();
    let mut j: usize = c;
    while j < n
        invariant
            c < n,
            n <= l,
            p == c,
            c <= j <= n,
            v@.len() == n,
            state@.len() == n,
            first == state@[c as int] + 1,
            state@[c as int] < max_at(c as int, n as nat, l as nat),
            forall|i: int| 0 <= i < c ==> v@[i] == state@[i],
            forall|i: int| c <= i < j ==> v@[i] == first + (i - c),
        decreases n - j,
    {
        v.set(j, first + (j - c));
        j += 1;
    }
    proof {
        let succ = Seq::new(
            state@.len(),
            |i: int| if i < p { state@[i] } else { (state@[p] + 1 + (i - p)) as usize },
        );
        assert(v@ =~= succ);
    }
    Some(v)
}

/// How many orbitals of `t` lie below `p`.
pub open spec fn count_less(t: Seq<usize>, p: usize) -> nat
    decreases t.len(),
{
    if t.len() == 0 {
        0
    } else {
        count_less(t.drop_last(), p) + if t.last() < p { 1nat } else { 0nat }
    }
}

/// How many orbitals of `s` lie strictly between `lo` and `hi`.
pub open spec fn count_between(s: Seq<usize>, lo: int, hi: int) -> nat
    decreases s.len(),
{
    if s.len() == 0 {
        0
    } else {
        count_between(s.drop_last(), lo, hi) + if lo < s.last() < hi { 1nat } else { 0nat }
    }
}

/// The fermionic sign of moving a particle of `s` from orbital `q` to
/// orbital `p`: `(-1)^m`, with `m` the occupied orbitals strictly between.
pub open spec fn excitation_sign(s: Seq<usize>, q: usize, p: usize) -> int {
    let lo = if p < q { p } else { q };
    let hi = if p < q { q } else { p };
    if count_between(s, lo as int, hi as int) % 2 == 0 {
        1
    } else {
        -1
    }
}

/// `s` with its `i`-th orbital replaced by `p`, sorted again.
pub open spec fn excite(s: Seq<usize>, i: int, p: usize) -> Seq<usize> {
    let t = s.remove(i);
    t.insert(count_less(t, p) as int, p)
}

/// In a sorted tuple the orbitals below `p` form a prefix of length `count_less`.
proof fn lemma_count_less_prefix(t: Seq<usize>, p: usize)
    requires
        forall|a: int, b: int| 0 <= a < b < t.len() ==> t[a] < t[b],
    ensures
        count_less(t, p) <= t.len(),
        forall|j: int| 0 <= j < count_less(t, p) ==> t[j] < p,
        forall|j: int| count_less(t, p) <= j < t.len() ==> t[j] >= p,
    decreases t.len(),
{
    if t.len() > 0 {
        let u = t.drop_last();
        lemma_count_less_prefix(u, p);
        let n = t.len() - 1;
        let k = count_less(u, p);
        if t.last() < p {
            assert forall|j: int| 0 <= j < n implies u[j] < p by {
                assert(t[j] < t[n]);
            }
            if k < n {
                assert(u[k as int] >= p);
            }
            assert(count_less(t, p) == n + 1);
            assert forall|j: int| 0 <= j < count_less(t, p) implies t[j] < p by {
                if j < n {
                    assert(t[j] == u[j]);
                }
            }
        } else {
            assert(count_less(t, p) == k);
            assert forall|j: int| 0 <= j < count_less(t, p) implies t[j] < p by {
                assert(t[j] == u[j]);
            }
            assert forall|j: int| count_less(t, p) <= j < t.len() implies t[j] >= p by {
                if j < n {
                    assert(t[j] == u[j]);
                }
            }
        }
    }
}

/// Replacing an orbital by an unoccupied one and sorting again gives a
/// valid state.
proof fn lemma_excite_ok(s: Seq<usize>, n: nat, l: nat, i: int, p: usize)
    requires
        occupation_ok(s, n, l),
        0 <= i < n,
        p < l,
        !s.contains(p),
    ensures
        occupation_ok(excite(s, i, p), n, l),
{
    let u = s.remove(i);
    assert forall|a: int, b: int| 0 <= a < b < u.len() implies u[a] < u[b] by {
        let a2 = if a < i { a } else { a + 1 };
        let b2 = if b < i { b } else { b + 1 };
        assert(s[a2] < s[b2]);
    }
    lemma_count_less_prefix(u, p);
    assert forall|j: int| 0 <= j < u.len() implies u[j] != p by {
        let j2 = if j < i { j } else { j + 1 };
        assert(u[j] == s[j2]);
    }
    let k = count_less(u, p) as int;
    let w = u.insert(k, p);
    assert forall|a: int, b: int| 0 <= a < b < w.len() implies w[a] < w[b] by {
        if b < k {
        } else if b == k {
        } else if a < k {
            assert(u[a] < p);
        } else if a == k {
            assert(u[b - 1] >= p);
        } else {
        }
    }
    assert forall|a: int| 0 <= a < w.len() implies w[a] < l by {
        if a != k {
            let a1 = if a < k { a } else { a - 1 };
            let a2 = if a1 < i { a1 } else { a1 + 1 };
            assert(w[a] == s[a2]);
        }
    }
}

/// Moves the particle at position `i` of `state` to the unoccupied orbital
/// `p`: the new state, sorted, with the fermionic sign of the move.
pub fn single_excitation(state: &Vec<usize>, n: usize, l: usize, i: usize, p: usize) -> (r: (
    i64,
    Vec<usize>,
))
    requires
        occupation_ok(state@, n as nat, l as nat),
        i < n,
        p < l,
        !state@.contains(p),
    ensures
        r.0 == excitation_sign(state@, state@[i as int], p),
        r.1@ == excite(state@, i as int, p),
        occupation_ok(r.1@, n as nat, l as nat),
{
    let q = state[i];
    let lo = if p < q { p } else { q };
    let hi = if p < q { q } else { p };
    let mut m: usize = 0;
    let mut j: usize = 0;
    while j < n
        invariant
            j <= n,
            state@.len() == n,
            m <= j,
            m == count_between(state@.take(j as int), lo as int, hi as int),
        decreases n - j,
    {
        proof {
            assert(state@.take(j + 1).drop_last() =~= state@.take(j as int));
        }
        let x = state[j];
        if lo < x && x < hi {
            m += 1;
        }
        j += 1;
    }
    proof {
        assert(state@.take(n as int) =~= state@);
    }
    let sign: i64 = if m % 2 == 0 { 1 } else { -1 };
    let mut t = state.clone();
    t.remove(i);
    let ghost u = t@;
    let mut k: usize = 0;
    let mut j: usize = 0;
    while j < t.len()
        invariant
            j <= t@.len(),
            t@ == u,
            k <= j,
            k == count_less(u.take(j as int), p),
        decreases t@.len() - j,
    {
        proof {
            assert(u.take(j + 1).drop_last() =~= u.take(j as int));
        }
        if t[j] < p {
            k += 1;
        }
        j += 1;
    }
    proof {
        assert(u.take(u.len() as int) =~= u);
        lemma_excite_ok(state@, n as nat, l as nat, i as int, p);
    }
    t.insert(k, p);
    (sign, t)
}

/// The pivot of a valid state that has a successor: its orbital is under
/// its maximum and every later orbital is at its maximum.
pub proof fn lemma_pivot_facts(s: Seq<usize>, n: nat, l: nat)
    requires
        occupation_ok(s, n, l),
        successor(s, l) is Some,
    ensures
        0 <= pivot(s, l, n as int) < n,
        s[pivot(s, l, n as int)] < max_at(pivot(s, l, n as int), n, l),
        forall|i: int| pivot(s, l, n as int) < i < n ==> s[i] == max_at(i, n, l),
        n <= l,
{
    lemma_occupation_bounds(s, n, l);
    lemma_pivot_none(s, l, n as int);
}

/// Removing an orbital drops it from the count if it lay in between.
proof fn lemma_count_between_remove(s: Seq<usize>, i: int, lo: int, hi: int)
    requires
        0 <= i < s.len(),
    ensures
        count_between(s, lo, hi) == count_between(s.remove(i), lo, hi) + if lo < s[i] < hi {
            1nat
        } else {
            0nat
        },
    decreases s.len(),
{
    if i == s.len() - 1 {
        assert(s.remove(i) =~= s.drop_last());
    } else {
        lemma_count_between_remove(s.drop_last(), i, lo, hi);
        assert(s.remove(i).drop_last() =~= s.drop_last().remove(i));
        assert(s.remove(i).last() == s.last());
    }
}

/// Inserting an orbital adds it to the count if it lies in between.
proof fn lemma_count_between_insert(t: Seq<usize>, k: int, x: usize, lo: int, hi: int)
    requires
        0 <= k <= t.len(),
    ensures
        count_between(t.insert(k, x), lo, hi) == count_between(t, lo, hi) + if lo < x < hi {
            1nat
        } else {
            0nat
        },
{
    lemma_count_between_remove(t.insert(k, x), k, lo, hi);
    assert(t.insert(k, x).remove(k) =~= t);
}

/// Reversing an excitation: moving the particle back from `p` to `q`
/// restores the state, and the sign of the reverse move equals the sign of
/// the move, since the orbitals strictly between `p` and `q` are the same
/// before and after it.
pub proof fn lemma_excitation_reverse(s: Seq<usize>, n: nat, l: nat, i: int, p: usize)
    requires
        occupation_ok(s, n, l),
        0 <= i < n,
        p < l,
        !s.contains(p),
    ensures
        ({
            let q = s[i];
            let t = excite(s, i, p);
            let back = count_less(s.remove(i), p) as int;
            &&& 0 <= back < n
            &&& t[back] == p
            &&& !t.contains(q)
            &&& excite(t, back, q) == s
            &&& excitation_sign(t, p, q) == excitation_sign(s, q, p)
        }),
{
    let q = s[i];
    let u = s.remove(i);
    assert forall|a: int, b: int| 0 <= a < b < u.len() implies u[a] < u[b] by {
        let a2 = if a < i { a } else { a + 1 };
        let b2 = if b < i { b } else { b + 1 };
        assert(s[a2] < s[b2]);
    }
    lemma_count_less_prefix(u, p);
    lemma_count_less_prefix(u, q);
    let k = count_less(u, p) as int;
    let t = u.insert(k, p);
    lemma_excite_ok(s, n, l, i, p);
    // the orbitals of `u` below `q` are exactly those before position `i`
    let kq = count_less(u, q) as int;
    if kq < i {
        assert(u[kq] == s[kq]);
        assert(s[kq] < s[i]);
    }
    if kq > i {
        assert(u[i] == s[i + 1]);
        assert(s[i] < s[i + 1]);
    }
    assert(kq == i);
    assert(t.remove(k) =~= u);
    assert(u.insert(i, q) =~= s);
    assert forall|j: int| 0 <= j < t.len() implies t[j] != q by {
        if j != k {
            let j1 = if j < k { j } else { j - 1 };
            let j2 = if j1 < i { j1 } else { j1 + 1 };
            assert(t[j] == s[j2]);
            assert(j2 != i);
            if j2 < i {
                assert(s[j2] < s[i]);
            } else {
                assert(s[i] < s[j2]);
            }
        } else {
            assert(s.contains(q));
        }
    }
    let lo = if p < q { p } else { q };
    let hi = if p < q { q } else { p };
    lemma_count_between_remove(s, i, lo as int, hi as int);
    lemma_count_between_insert(u, k, p, lo as int, hi as int);
}

/// The successor of a valid state is a valid state, and a valid state has
/// none exactly when every orbital sits at its maximum.
pub proof fn lemma_successor_ok(s: Seq<usize>, n: nat, l: nat)
    requires
        occupation_ok(s, n, l),
        l <= usize::MAX,
    ensures
        successor(s, l) is None <==> forall|i: int| 0 <= i < n ==> s[i] == max_at(i, n, l),
        successor(s, l) matches Some(t) ==> occupation_ok(t, n, l),
{
    lemma_occupation_bounds(s, n, l);
    lemma_pivot_none(s, l, n as int);
    let p = pivot(s, l, n as int);
    if p >= 0 {
        assert(s[p] != max_at(p, n, l));
        let t = successor(s, l)->0;
        assert forall|j: int| 0 <= j < n implies t[j] < l by {
            if j < p {
                assert(t[j] == s[j]);
            } else {
                assert(s[p] + 1 + (j - p) < l);
            }
        }
        assert forall|a: int, b: int| 0 <= a < b < t.len() implies t[a] < t[b] by {
            if b < p {
                assert(t[a] == s[a] && t[b] == s[b]);
            } else if a < p {
                assert(t[a] == s[a]);
                assert(s[a] < s[p]);
                assert(s[p] + 1 + (b - p) < l);
            } else {
                assert(s[p] + 1 + (b - p) < l);
            }
        }
    }
}

/// The orbital at position `i` of a valid state lies in `[i, l - n + i]`.
proof fn lemma_occupation_bounds(s: Seq<usize>, n: nat, l: nat)
    requires
        occupation_ok(s, n, l),
    ensures
        n <= l,
        forall|i: int| 0 <= i < n ==> i <= #[trigger] s[i] <= max_at(i, n, l),
    decreases n,
{
    if n > 0 {
        let t = s.drop_last();
        assert(s[n - 1] < l);
        assert(occupation_ok(t, (n - 1) as nat, (l - 1) as nat)) by {
            assert forall|i: int| 0 <= i < t.len() implies t[i] < l - 1 by {
                assert(s[i] < s[n - 1]);
            }
        }
        lemma_occupation_bounds(t, (n - 1) as nat, (l - 1) as nat);
        assert forall|i: int| 0 <= i < n implies i <= #[trigger] s[i] <= max_at(i, n, l) by {
            if i < n - 1 {
                assert(t[i] == s[i]);
            } else if n >= 2 {
                assert(s[n - 2] < s[n - 1]);
                assert(t[n - 2] == s[n - 2]);
            }
        }
    }
}

} // verus!
