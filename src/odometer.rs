//! The order in which neighbours of a multi-index are visited, stated as
//! sequences of index tuples, and a verified cursor that walks them.
use vstd::prelude::*;
use vstd::arithmetic::div_mod::{lemma_mod_add_multiples_vanish, lemma_small_mod};
use crate::mixed_radix::{indices_ok, shape_ok};

verus! {

/// The value `x` advanced by `j` steps, wrapping modulo `d`.
pub open spec fn wrap_add(x: usize, j: int, d: usize) -> usize {
    ((x + j) % (d as int)) as usize
}

/// The tuples reached from `base` by changing position `p` alone, in
/// odometer order: `base[p] + 1, base[p] + 2, ...` modulo `shape[p]`,
/// stopping before `base[p]` comes back.
pub open spec fn sweep(shape: Seq<usize>, base: Seq<usize>, p: int) -> Seq<Seq<usize>> {
    Seq::new(
        (shape[p] - 1) as nat,
        |k: int| base.update(p, wrap_add(base[p], k + 1, shape[p])),
    )
}

/// The one-position neighbours of `base` that vary a position below `m`,
/// from the least significant of them, `m - 1`, to position 0.
pub open spec fn one_body_list(shape: Seq<usize>, base: Seq<usize>, m: nat) -> Seq<Seq<usize>>
    decreases m,
{
    if m == 0 {
        Seq::empty()
    } else {
        sweep(shape, base, m - 1) + one_body_list(shape, base, (m - 1) as nat)
    }
}

/// What a cursor at position `m - 1`, having produced `k` values there,
/// has still to produce.
pub open spec fn cursor_rest(shape: Seq<usize>, base: Seq<usize>, m: nat, k: nat) -> Seq<Seq<usize>> {
    if m == 0 {
        Seq::empty()
    } else {
        sweep(shape, base, m - 1).skip(k as int) + one_body_list(shape, base, (m - 1) as nat)
    }
}

/// A cursor position that `cursor_step` accepts.
pub open spec fn cursor_ok(shape: Seq<usize>, m: nat, k: nat) -> bool {
    &&& m <= shape.len()
    &&& m > 0 ==> k < shape[m - 1]
}

/// `base` with position `r` changed to its `a + 1`-th successor value.
pub open spec fn lift(shape: Seq<usize>, base: Seq<usize>, r: int, a: nat) -> Seq<usize> {
    base.update(r, wrap_add(base[r], a + 1 as int, shape[r]))
}

/// The two-position neighbours of `start` whose more significant changed
/// position is `r`, for the outer values from the `a + 1`-th on.
pub open spec fn outer_from(shape: Seq<usize>, start: Seq<usize>, r: int, a: nat) -> Seq<Seq<usize>>
    decreases shape[r] - a,
{
    if r < 0 || r >= shape.len() || a + 1 >= shape[r] {
        Seq::empty()
    } else {
        one_body_list(shape, lift(shape, start, r, a), r as nat) + outer_from(
            shape,
            start,
            r,
            a + 1,
        )
    }
}

/// The two-position neighbours of `start` whose changed positions are below
/// `m`, in nested odometer order.
pub open spec fn two_body_list(shape: Seq<usize>, start: Seq<usize>, m: nat) -> Seq<Seq<usize>>
    decreases m,
{
    if m == 0 {
        Seq::empty()
    } else {
        outer_from(shape, start, m - 1, 0) + two_body_list(shape, start, (m - 1) as nat)
    }
}

/// Wrapping addition agrees with a single conditional subtraction.
pub proof fn lemma_wrap_add(x: usize, j: int, d: usize)
    requires
        x < d,
        0 <= j < d,
    ensures
        x + j < d ==> wrap_add(x, j, d) == x + j,
        x + j >= d ==> wrap_add(x, j, d) == x + j - d,
        wrap_add(x, j, d) < d,
{
    if x + j < d {
        lemma_small_mod((x + j) as nat, d as nat);
    } else {
        lemma_mod_add_multiples_vanish(x + j - d, d as int);
        lemma_small_mod((x + j - d) as nat, d as nat);
    }
}

/// `x` advanced by `j` steps modulo `d`, computed without overflow.
pub fn wrap_add_exec(x: usize, j: usize, d: usize) -> (r: usize)
    requires
        x < d,
        j < d,
    ensures
        r == wrap_add(x, j as int, d),
{
    proof {
        lemma_wrap_add(x, j as int, d);
    }
    let room = d - x;
    if j < room {
        x + j
    } else {
        j - room
    }
}

/// `base` with position `r` moved to its `a + 1`-th successor value.
pub fn lift_exec(shape: &Vec<usize>, base: &Vec<usize>, r: usize, a: usize) -> (v: Vec<usize>)
    requires
        shape_ok(shape@),
        indices_ok(base@, shape@),
        r < shape@.len(),
        a + 1 < shape@[r as int],
    ensures
        v@ == lift(shape@, base@, r as int, a as nat),
        indices_ok(v@, shape@),
{
    let mut v = base.clone();
    let x = wrap_add_exec(base[r], a + 1, shape[r]);
    v.set(r, x);
    proof {
        assert(v@ =~= lift(shape@, base@, r as int, a as nat));
    }
    v
}

/// At position 0 or above, a fresh cursor has the whole list ahead.
pub proof fn lemma_cursor_fresh(shape: Seq<usize>, base: Seq<usize>, m: nat)
    ensures
        cursor_rest(shape, base, m, 0) == one_body_list(shape, base, m),
{
    if m > 0 {
        assert(sweep(shape, base, m - 1).skip(0) =~= sweep(shape, base, m - 1));
    }
}

/// Produces the next tuple of `cursor_rest(shape, base, m, k)`, advancing the
/// cursor past it, or `None` where nothing is left.
pub fn cursor_step(shape: &Vec<usize>, base: &Vec<usize>, m: &mut usize, k: &mut usize) -> (r:
    Option<Vec<usize>>)
    requires
        shape_ok(shape@),
        indices_ok(base@, shape@),
        cursor_ok(shape@, *old(m) as nat, *old(k) as nat),
    ensures
        cursor_ok(shape@, *final(m) as nat, *final(k) as nat),
        *final(m) <= *old(m),
        ({
            let rest = cursor_rest(shape@, base@, *old(m) as nat, *old(k) as nat);
            let after = cursor_rest(shape@, base@, *final(m) as nat, *final(k) as nat);
            &&& rest.len() == 0 ==> r is None && after.len() == 0
            &&& rest.len() > 0 ==> (r matches Some(v) && v@ == rest[0] && after == rest.drop_first()
                && indices_ok(v@, shape@))
        }),
{
    let ghost rest = cursor_rest(shape@, base@, *m as nat, *k as nat);
    while *m > 0
        invariant
            shape_ok(shape@),
            indices_ok(base@, shape@),
            cursor_ok(shape@, *m as nat, *k as nat),
            cursor_rest(shape@, base@, *m as nat, *k as nat) == rest,
            rest == cursor_rest(shape@, base@, *old(m) as nat, *old(k) as nat),
            *m <= *old(m),
        decreases *m,
    {
        let p = *m - 1;
        let d = shape[p];
        let ghost sw = sweep(shape@, base@, p as int);
        let ghost tail = one_body_list(shape@, base@, p as nat);
        if *k + 1 < d {
            let mut v = base.clone();
            let x = wrap_add_exec(base[p], *k + 1, d);
            v.set(p, x);
            proof {
                assert(rest == sw.skip(*k as int) + tail);
                assert(v@ =~= sw[*k as int]);
                assert(indices_ok(v@, shape@));
                assert(rest[0] == sw[*k as int]);
                assert(sw.skip(*k + 1) + tail =~= rest.drop_first());
            }
            *k = *k + 1;
            proof {
                assert(cursor_rest(shape@, base@, *m as nat, *k as nat) == sw.skip(*k as int) + tail);
                assert(rest.len() > 0);
            }
            return Some(v);
        }
        proof {
            assert(sw.skip(*k as int) =~= Seq::<Seq<usize>>::empty());
            assert(rest =~= tail);
            lemma_cursor_fresh(shape@, base@, p as nat);
        }
        *m = p;
        *k = 0;
    }
    None
}


/// The positions at which `a` and `b` differ.
pub open spec fn differing_positions(a: Seq<usize>, b: Seq<usize>) -> Set<int> {
    Set::new(|t: int| 0 <= t < a.len() && a[t] != b[t])
}

/// The number of positions at which `a` and `b` differ.
pub open spec fn hamming(a: Seq<usize>, b: Seq<usize>) -> nat {
    differing_positions(a, b).len()
}

/// `sum_{i < m} (shape[i] - 1)`: the one-position neighbours below `m`.
pub open spec fn one_body_count(shape: Seq<usize>, m: nat) -> nat
    decreases m,
{
    if m == 0 {
        0
    } else {
        one_body_count(shape, (m - 1) as nat) + (shape[m - 1] - 1) as nat
    }
}

/// `sum_{p < r < m} (shape[r] - 1) * (shape[p] - 1)`: the two-position
/// neighbours below `m`, each unordered pair of positions counted once.
pub open spec fn two_body_count(shape: Seq<usize>, m: nat) -> nat
    decreases m,
{
    if m == 0 {
        0
    } else {
        two_body_count(shape, (m - 1) as nat) + (shape[m - 1] - 1) as nat * one_body_count(
            shape,
            (m - 1) as nat,
        )
    }
}

/// `e` differs from `base` at position `p` and nowhere else.
pub open spec fn changed_only_at(e: Seq<usize>, base: Seq<usize>, p: int) -> bool {
    &&& e.len() == base.len()
    &&& 0 <= p < base.len()
    &&& e[p] != base[p]
    &&& forall|t: int| 0 <= t < base.len() && t != p ==> e[t] == base[t]
}

/// `e` holds the `a + 1`-th successor value at `r` and differs from that
/// lifted tuple at position `p` alone.
pub open spec fn changed_at_two(
    shape: Seq<usize>,
    start: Seq<usize>,
    e: Seq<usize>,
    r: int,
    p: int,
    a: nat,
) -> bool {
    &&& 0 <= p < r
    &&& a + 1 < shape[r]
    &&& changed_only_at(e, lift(shape, start, r, a), p)
}

/// Positive dimensions.
pub open spec fn dims_positive(shape: Seq<usize>) -> bool {
    forall|i: int| 0 <= i < shape.len() ==> shape[i] > 0
}

proof fn lemma_wrap_injective(x: usize, j1: int, j2: int, d: usize)
    requires
        x < d,
        0 <= j1 < d,
        0 <= j2 < d,
        wrap_add(x, j1, d) == wrap_add(x, j2, d),
    ensures
        j1 == j2,
{
    lemma_wrap_add(x, j1, d);
    lemma_wrap_add(x, j2, d);
}

proof fn lemma_wrap_moves(x: usize, j: int, d: usize)
    requires
        x < d,
        0 < j < d,
    ensures
        wrap_add(x, j, d) != x,
        wrap_add(x, j, d) < d,
{
    lemma_wrap_add(x, j, d);
}

proof fn lemma_hamming_one(e: Seq<usize>, base: Seq<usize>, p: int)
    requires
        changed_only_at(e, base, p),
    ensures
        hamming(e, base) == 1,
{
    assert(differing_positions(e, base) =~= set![p]);
    assert(set![p].len() == 1);
}

proof fn lemma_hamming_two(e: Seq<usize>, base: Seq<usize>, p: int, r: int)
    requires
        e.len() == base.len(),
        0 <= p < r < base.len(),
        e[p] != base[p],
        e[r] != base[r],
        forall|t: int| 0 <= t < base.len() && t != p && t != r ==> e[t] == base[t],
    ensures
        hamming(e, base) == 2,
{
    assert(differing_positions(e, base) =~= set![p].insert(r));
    assert(set![p].insert(r).len() == 2);
}

/// Each sweep element is a valid tuple changed at `p` alone, and no two agree.
proof fn lemma_sweep(shape: Seq<usize>, base: Seq<usize>, p: int)
    requires
        dims_positive(shape),
        indices_ok(base, shape),
        0 <= p < shape.len(),
    ensures
        sweep(shape, base, p).no_duplicates(),
        forall|k: int|
            0 <= k < sweep(shape, base, p).len() ==> indices_ok(
                #[trigger] sweep(shape, base, p)[k],
                shape,
            ) && changed_only_at(sweep(shape, base, p)[k], base, p),
{
    let sw = sweep(shape, base, p);
    assert forall|k: int| 0 <= k < sw.len() implies indices_ok(#[trigger] sw[k], shape)
        && changed_only_at(sw[k], base, p) by {
        lemma_wrap_moves(base[p], k + 1, shape[p]);
    }
    assert forall|i: int, j: int| 0 <= i < sw.len() && 0 <= j < sw.len() && i != j implies sw[i]
        != sw[j] by {
        if sw[i] == sw[j] {
            assert(sw[i][p] == sw[j][p]);
            lemma_wrap_injective(base[p], i + 1, j + 1, shape[p]);
        }
    }
}

/// Each element of `one_body_list(shape, base, m)` is a valid tuple that
/// differs from `base` at one position below `m`.
proof fn lemma_one_body_elements(shape: Seq<usize>, base: Seq<usize>, m: nat)
    requires
        dims_positive(shape),
        indices_ok(base, shape),
        m <= shape.len(),
    ensures
        forall|j: int|
            0 <= j < one_body_list(shape, base, m).len() ==> indices_ok(
                #[trigger] one_body_list(shape, base, m)[j],
                shape,
            ) && exists|p: int|
                0 <= p < m && #[trigger] changed_only_at(one_body_list(shape, base, m)[j], base, p),
    decreases m,
{
    if m > 0 {
        let sw = sweep(shape, base, m - 1);
        let tail = one_body_list(shape, base, (m - 1) as nat);
        lemma_sweep(shape, base, m - 1);
        lemma_one_body_elements(shape, base, (m - 1) as nat);
        let list = one_body_list(shape, base, m);
        assert forall|j: int| 0 <= j < list.len() implies indices_ok(#[trigger] list[j], shape)
            && exists|p: int| 0 <= p < m && #[trigger] changed_only_at(list[j], base, p) by {
            if j < sw.len() {
                assert(list[j] == sw[j]);
                assert(changed_only_at(list[j], base, m - 1));
            } else {
                assert(list[j] == tail[j - sw.len()]);
                let p = choose|p: int| 0 <= p < m - 1 && #[trigger] changed_only_at(tail[j - sw.len()], base, p);
                assert(changed_only_at(list[j], base, p));
            }
        }
    }
}

/// `one_body_list(shape, base, m)` holds `one_body_count(shape, m)` distinct tuples.
proof fn lemma_one_body_distinct(shape: Seq<usize>, base: Seq<usize>, m: nat)
    requires
        dims_positive(shape),
        indices_ok(base, shape),
        m <= shape.len(),
    ensures
        one_body_list(shape, base, m).no_duplicates(),
        one_body_list(shape, base, m).len() == one_body_count(shape, m),
    decreases m,
{
    if m > 0 {
        let sw = sweep(shape, base, m - 1);
        let tail = one_body_list(shape, base, (m - 1) as nat);
        lemma_sweep(shape, base, m - 1);
        lemma_one_body_elements(shape, base, (m - 1) as nat);
        lemma_one_body_distinct(shape, base, (m - 1) as nat);
        let list = one_body_list(shape, base, m);
        assert forall|i: int, j: int| 0 <= i < j < list.len() implies list[i] != list[j] by {
            if j < sw.len() {
                assert(list[i] == sw[i] && list[j] == sw[j]);
            } else if i >= sw.len() {
                assert(list[i] == tail[i - sw.len()] && list[j] == tail[j - sw.len()]);
            } else {
                assert(list[i] == sw[i]);
                assert(changed_only_at(sw[i], base, m - 1));
                assert(list[j] == tail[j - sw.len()]);
                let p = choose|p: int| 0 <= p < m - 1 && #[trigger] changed_only_at(tail[j - sw.len()], base, p);
                assert(list[j][m - 1] == base[m - 1]);
            }
        }
    }
}

/// The one-position neighbours: `one_body_list` over all positions holds
/// `sum (shape[i] - 1)` tuples, all distinct, each a valid tuple at Hamming
/// distance exactly 1 from `start`.
pub proof fn lemma_one_body_neighbours(shape: Seq<usize>, start: Seq<usize>)
    requires
        shape_ok(shape),
        indices_ok(start, shape),
    ensures
        ({
            let list = one_body_list(shape, start, shape.len());
            &&& list.len() == one_body_count(shape, shape.len())
            &&& list.no_duplicates()
            &&& forall|j: int|
                0 <= j < list.len() ==> indices_ok(#[trigger] list[j], shape) && hamming(
                    list[j],
                    start,
                ) == 1
        }),
{
    let list = one_body_list(shape, start, shape.len());
    lemma_one_body_elements(shape, start, shape.len());
    lemma_one_body_distinct(shape, start, shape.len());
    assert forall|j: int| 0 <= j < list.len() implies indices_ok(#[trigger] list[j], shape)
        && hamming(list[j], start) == 1 by {
        let p = choose|p: int| 0 <= p < shape.len() && #[trigger] changed_only_at(list[j], start, p);
        lemma_hamming_one(list[j], start, p);
    }
}


/// Each element of `outer_from(shape, start, r, a)` holds an outer value
/// from the `a + 1`-th on at `r` and one changed value below `r`.
proof fn lemma_outer_elements(shape: Seq<usize>, start: Seq<usize>, r: int, a: nat)
    requires
        dims_positive(shape),
        indices_ok(start, shape),
        0 <= r < shape.len(),
    ensures
        forall|j: int|
            0 <= j < outer_from(shape, start, r, a).len() ==> indices_ok(
                #[trigger] outer_from(shape, start, r, a)[j],
                shape,
            ) && exists|p: int, a2: nat|
                a <= a2 && #[trigger] changed_at_two(
                    shape,
                    start,
                    outer_from(shape, start, r, a)[j],
                    r,
                    p,
                    a2,
                ),
    decreases shape[r] - a,
{
    if a + 1 < shape[r] {
        let base = lift(shape, start, r, a);
        lemma_wrap_moves(start[r], a + 1 as int, shape[r]);
        let inner = one_body_list(shape, base, r as nat);
        let rest = outer_from(shape, start, r, a + 1);
        lemma_one_body_elements(shape, base, r as nat);
        lemma_outer_elements(shape, start, r, a + 1);
        let list = outer_from(shape, start, r, a);
        assert forall|j: int| 0 <= j < list.len() implies indices_ok(#[trigger] list[j], shape)
            && exists|p: int, a2: nat| a <= a2 && #[trigger] changed_at_two(shape, start, list[j], r, p, a2) by {
            if j < inner.len() {
                assert(list[j] == inner[j]);
                let p = choose|p: int| 0 <= p < r && #[trigger] changed_only_at(inner[j], base, p);
                assert(changed_at_two(shape, start, list[j], r, p, a));
            } else {
                assert(list[j] == rest[j - inner.len()]);
                let (p, a2) = choose|p: int, a2: nat| a + 1 <= a2 && #[trigger] changed_at_two(shape, start, rest[j - inner.len()], r, p, a2);
                assert(changed_at_two(shape, start, list[j], r, p, a2));
            }
        }
    }
}

/// `outer_from(shape, start, r, a)` holds distinct tuples, as many as the
/// outer values left times the one-position neighbours below `r`.
proof fn lemma_outer_distinct(shape: Seq<usize>, start: Seq<usize>, r: int, a: nat)
    requires
        dims_positive(shape),
        indices_ok(start, shape),
        0 <= r < shape.len(),
    ensures
        outer_from(shape, start, r, a).no_duplicates(),
        outer_from(shape, start, r, a).len() == if a + 1 < shape[r] {
            (shape[r] - 1 - a) * one_body_count(shape, r as nat)
        } else {
            0
        },
    decreases shape[r] - a,
{
    if a + 1 < shape[r] {
        let base = lift(shape, start, r, a);
        lemma_wrap_moves(start[r], a + 1 as int, shape[r]);
        let inner = one_body_list(shape, base, r as nat);
        let rest = outer_from(shape, start, r, a + 1);
        lemma_one_body_elements(shape, base, r as nat);
        lemma_one_body_distinct(shape, base, r as nat);
        lemma_outer_elements(shape, start, r, a + 1);
        lemma_outer_distinct(shape, start, r, a + 1);
        let list = outer_from(shape, start, r, a);
        assert forall|i: int, j: int| 0 <= i < j < list.len() implies list[i] != list[j] by {
            if j < inner.len() {
                assert(list[i] == inner[i] && list[j] == inner[j]);
            } else if i >= inner.len() {
                assert(list[i] == rest[i - inner.len()] && list[j] == rest[j - inner.len()]);
            } else {
                assert(list[i] == inner[i]);
                let p = choose|p: int| 0 <= p < r && #[trigger] changed_only_at(inner[i], base, p);
                assert(list[i][r] == base[r]);
                assert(list[j] == rest[j - inner.len()]);
                let (_p, b) = choose|p: int, a2: nat| a + 1 <= a2 && #[trigger] changed_at_two(shape, start, rest[j - inner.len()], r, p, a2);
                if list[i] == list[j] {
                    lemma_wrap_injective(start[r], a + 1 as int, b + 1 as int, shape[r]);
                }
            }
        }
        let c = one_body_count(shape, r as nat) as int;
        let d = shape[r] as int;
        let a1 = a as int;
        if a + 2 < shape[r] {
            assert((d - 1 - a1) * c == c + (d - 1 - (a1 + 1)) * c) by (nonlinear_arith);
        } else {
            assert((d - 1 - a1) * c == c) by (nonlinear_arith)
                requires
                    d - 1 - a1 == 1,
            ;
        }
    }
}

/// Each element of `two_body_list(shape, start, m)` changes two positions
/// below `m`.
proof fn lemma_two_body_elements(shape: Seq<usize>, start: Seq<usize>, m: nat)
    requires
        dims_positive(shape),
        indices_ok(start, shape),
        m <= shape.len(),
    ensures
        forall|j: int|
            0 <= j < two_body_list(shape, start, m).len() ==> indices_ok(
                #[trigger] two_body_list(shape, start, m)[j],
                shape,
            ) && exists|r: int, p: int, a2: nat|
                r < m && #[trigger] changed_at_two(
                    shape,
                    start,
                    two_body_list(shape, start, m)[j],
                    r,
                    p,
                    a2,
                ),
    decreases m,
{
    if m > 0 {
        let head = outer_from(shape, start, m - 1, 0);
        let tail = two_body_list(shape, start, (m - 1) as nat);
        lemma_outer_elements(shape, start, m - 1, 0);
        lemma_two_body_elements(shape, start, (m - 1) as nat);
        let list = two_body_list(shape, start, m);
        assert forall|j: int| 0 <= j < list.len() implies indices_ok(#[trigger] list[j], shape)
            && exists|r: int, p: int, a2: nat| r < m && #[trigger] changed_at_two(shape, start, list[j], r, p, a2) by {
            if j < head.len() {
                assert(list[j] == head[j]);
                let (p, a2) = choose|p: int, a2: nat| 0 <= a2 && #[trigger] changed_at_two(shape, start, head[j], m - 1, p, a2);
                assert(changed_at_two(shape, start, list[j], m - 1, p, a2));
            } else {
                assert(list[j] == tail[j - head.len()]);
                let (r, p, a2) = choose|r: int, p: int, a2: nat| r < m - 1 && #[trigger] changed_at_two(shape, start, tail[j - head.len()], r, p, a2);
                assert(changed_at_two(shape, start, list[j], r, p, a2));
            }
        }
    }
}

/// `two_body_list(shape, start, m)` holds `two_body_count(shape, m)` distinct tuples.
proof fn lemma_two_body_distinct(shape: Seq<usize>, start: Seq<usize>, m: nat)
    requires
        dims_positive(shape),
        indices_ok(start, shape),
        m <= shape.len(),
    ensures
        two_body_list(shape, start, m).no_duplicates(),
        two_body_list(shape, start, m).len() == two_body_count(shape, m),
    decreases m,
{
    if m > 0 {
        let head = outer_from(shape, start, m - 1, 0);
        let tail = two_body_list(shape, start, (m - 1) as nat);
        lemma_outer_elements(shape, start, m - 1, 0);
        lemma_outer_distinct(shape, start, m - 1, 0);
        lemma_two_body_elements(shape, start, (m - 1) as nat);
        lemma_two_body_distinct(shape, start, (m - 1) as nat);
        let list = two_body_list(shape, start, m);
        assert forall|i: int, j: int| 0 <= i < j < list.len() implies list[i] != list[j] by {
            if j < head.len() {
                assert(list[i] == head[i] && list[j] == head[j]);
            } else if i >= head.len() {
                assert(list[i] == tail[i - head.len()] && list[j] == tail[j - head.len()]);
            } else {
                assert(list[i] == head[i]);
                let (p, a2) = choose|p: int, a2: nat| 0 <= a2 && #[trigger] changed_at_two(shape, start, head[i], m - 1, p, a2);
                lemma_wrap_moves(start[m - 1], a2 + 1 as int, shape[m - 1]);
                assert(list[i][m - 1] != start[m - 1]);
                assert(list[j] == tail[j - head.len()]);
                let (_r, _p, _a) = choose|r: int, p: int, a2: nat| r < m - 1 && #[trigger] changed_at_two(shape, start, tail[j - head.len()], r, p, a2);
                assert(list[j][m - 1] == start[m - 1]);
            }
        }
        let d = shape[m - 1] as int;
        let c = one_body_count(shape, (m - 1) as nat) as int;
        let k = (shape[m - 1] - 1) as nat as int;
        assert(k == d - 1);
        if d <= 1 {
            assert(k * c == 0) by (nonlinear_arith)
                requires
                    k == 0,
            ;
        } else {
            assert(head.len() == (d - 1 - 0) * c);
        }
    }
}

/// The two-position neighbours: `two_body_list` over all positions holds
/// one tuple for each unordered pair of positions and each pair of changed
/// values, `sum_{p < r} (shape[r] - 1) * (shape[p] - 1)` in all, all
/// distinct, each a valid tuple at Hamming distance exactly 2 from `start`.
pub proof fn lemma_two_body_neighbours(shape: Seq<usize>, start: Seq<usize>)
    requires
        shape_ok(shape),
        indices_ok(start, shape),
    ensures
        ({
            let list = two_body_list(shape, start, shape.len());
            &&& list.len() == two_body_count(shape, shape.len())
            &&& list.no_duplicates()
            &&& forall|j: int|
                0 <= j < list.len() ==> indices_ok(#[trigger] list[j], shape) && hamming(
                    list[j],
                    start,
                ) == 2
        }),
{
    let list = two_body_list(shape, start, shape.len());
    lemma_two_body_elements(shape, start, shape.len());
    lemma_two_body_distinct(shape, start, shape.len());
    assert forall|j: int| 0 <= j < list.len() implies indices_ok(#[trigger] list[j], shape)
        && hamming(list[j], start) == 2 by {
        let (r, p, a2) = choose|r: int, p: int, a2: nat| r < shape.len() && #[trigger] changed_at_two(shape, start, list[j], r, p, a2);
        lemma_wrap_moves(start[r], a2 + 1 as int, shape[r]);
        let base = lift(shape, start, r, a2);
        assert(base[p] == start[p]);
        lemma_hamming_two(list[j], start, p, r);
    }
}


/// A changed value at `p` is reached by the sweep of `p`, at the step that
/// advances `base[p]` to it.
proof fn lemma_sweep_reaches(shape: Seq<usize>, base: Seq<usize>, w: Seq<usize>, p: int)
    requires
        dims_positive(shape),
        indices_ok(base, shape),
        indices_ok(w, shape),
        changed_only_at(w, base, p),
    ensures
        sweep(shape, base, p).contains(w),
{
    let x = base[p];
    let y = w[p];
    let d = shape[p];
    let j: int = if y > x { y - x } else { y + d - x };
    lemma_wrap_add(x, j, d);
    let sw = sweep(shape, base, p);
    assert(sw[j - 1] =~= w);
}

/// Every valid tuple that differs from `base` at one position below `m`
/// appears in `one_body_list(shape, base, m)`.
proof fn lemma_one_body_reaches(shape: Seq<usize>, base: Seq<usize>, w: Seq<usize>, p: int, m: nat)
    requires
        dims_positive(shape),
        indices_ok(base, shape),
        indices_ok(w, shape),
        changed_only_at(w, base, p),
        p < m <= shape.len(),
    ensures
        one_body_list(shape, base, m).contains(w),
    decreases m,
{
    let sw = sweep(shape, base, m - 1);
    let tail = one_body_list(shape, base, (m - 1) as nat);
    let list = one_body_list(shape, base, m);
    if p == m - 1 {
        lemma_sweep_reaches(shape, base, w, p);
        let k = choose|k: int| 0 <= k < sw.len() && sw[k] == w;
        assert(list[k] == w);
    } else {
        lemma_one_body_reaches(shape, base, w, p, (m - 1) as nat);
        let k = choose|k: int| 0 <= k < tail.len() && tail[k] == w;
        assert(list[sw.len() + k] == w);
    }
}

/// Every one-position neighbour is enumerated: a valid tuple that differs
/// from `start` at exactly one position `p` appears in `one_body_list`.
pub proof fn lemma_one_body_complete(shape: Seq<usize>, start: Seq<usize>, w: Seq<usize>, p: int)
    requires
        shape_ok(shape),
        indices_ok(start, shape),
        indices_ok(w, shape),
        changed_only_at(w, start, p),
    ensures
        one_body_list(shape, start, shape.len()).contains(w),
{
    lemma_one_body_reaches(shape, start, w, p, shape.len());
}

/// A tuple changed at `r` and at `p < r` is reached by the outer value it
/// holds at `r`.
proof fn lemma_outer_reaches(
    shape: Seq<usize>,
    start: Seq<usize>,
    w: Seq<usize>,
    r: int,
    p: int,
    a: nat,
    a2: nat,
)
    requires
        dims_positive(shape),
        indices_ok(start, shape),
        indices_ok(w, shape),
        changed_at_two(shape, start, w, r, p, a2),
        r < shape.len(),
        a <= a2,
    ensures
        outer_from(shape, start, r, a).contains(w),
    decreases a2 - a,
{
    let base = lift(shape, start, r, a);
    lemma_wrap_moves(start[r], a + 1 as int, shape[r]);
    let inner = one_body_list(shape, base, r as nat);
    let rest = outer_from(shape, start, r, a + 1);
    let list = outer_from(shape, start, r, a);
    if a == a2 {
        lemma_one_body_reaches(shape, base, w, p, r as nat);
        let k = choose|k: int| 0 <= k < inner.len() && inner[k] == w;
        assert(list[k] == w);
    } else {
        lemma_outer_reaches(shape, start, w, r, p, a + 1, a2);
        let k = choose|k: int| 0 <= k < rest.len() && rest[k] == w;
        assert(list[inner.len() + k] == w);
    }
}

/// Every valid tuple changed at `r < m` and below it appears in
/// `two_body_list(shape, start, m)`.
proof fn lemma_two_body_reaches(
    shape: Seq<usize>,
    start: Seq<usize>,
    w: Seq<usize>,
    r: int,
    p: int,
    a2: nat,
    m: nat,
)
    requires
        dims_positive(shape),
        indices_ok(start, shape),
        indices_ok(w, shape),
        changed_at_two(shape, start, w, r, p, a2),
        r < m <= shape.len(),
    ensures
        two_body_list(shape, start, m).contains(w),
    decreases m,
{
    let head = outer_from(shape, start, m - 1, 0);
    let tail = two_body_list(shape, start, (m - 1) as nat);
    let list = two_body_list(shape, start, m);
    if r == m - 1 {
        lemma_outer_reaches(shape, start, w, r, p, 0, a2);
        let k = choose|k: int| 0 <= k < head.len() && head[k] == w;
        assert(list[k] == w);
    } else {
        lemma_two_body_reaches(shape, start, w, r, p, a2, (m - 1) as nat);
        let k = choose|k: int| 0 <= k < tail.len() && tail[k] == w;
        assert(list[head.len() + k] == w);
    }
}

/// Every two-position neighbour is enumerated: a valid tuple that differs
/// from `start` at exactly the positions `p < r` appears in `two_body_list`.
pub proof fn lemma_two_body_complete(shape: Seq<usize>, start: Seq<usize>, w: Seq<usize>, p: int, r: int)
    requires
        shape_ok(shape),
        indices_ok(start, shape),
        indices_ok(w, shape),
        0 <= p < r < shape.len(),
        w[p] != start[p],
        w[r] != start[r],
        forall|t: int| 0 <= t < shape.len() && t != p && t != r ==> w[t] == start[t],
    ensures
        two_body_list(shape, start, shape.len()).contains(w),
{
    let x = start[r];
    let y = w[r];
    let d = shape[r];
    let j: int = if y > x { y - x } else { y + d - x };
    lemma_wrap_add(x, j, d);
    let a2 = (j - 1) as nat;
    assert(changed_only_at(w, lift(shape, start, r, a2), p));
    lemma_two_body_reaches(shape, start, w, r, p, a2, shape.len());
}

} // verus!
