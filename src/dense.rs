//! Dense multi-index states over a shared shape, and the enumerators of
//! their one- and two-coordinate neighbours.
use vstd::prelude::*;
use crate::error::BasisError;
use crate::odometer::{
    cursor_ok, cursor_rest, cursor_step, lemma_cursor_fresh, lift, lift_exec, one_body_list,
    outer_from, two_body_list,
};
use crate::mixed_radix::{
    encode, indices_ok, lemma_encode_bound, lemma_encode_injective, lemma_product_skip_le, shape_ok,
    shape_product,
};

verus! {

/// A multi-index over a borrowed shape together with its flat index.
#[derive(Debug)]
pub struct DenseState<'a> {
    shape: &'a Vec<usize>,
    indices: Vec<usize>,
    compound: usize,
}

impl<'a> DenseState<'a> {
    /// The shape the state indexes.
    pub closed spec fn shape_view(&self) -> Seq<usize> {
        self.shape@
    }

    /// The index tuple.
    pub closed spec fn indices_view(&self) -> Seq<usize> {
        self.indices@
    }

    /// The flat index.
    pub closed spec fn compound_view(&self) -> nat {
        self.compound as nat
    }

    /// The shape is valid, the tuple lies in it, and the flat index encodes the tuple.
    pub open spec fn wf(&self) -> bool {
        &&& shape_ok(self.shape_view())
        &&& indices_ok(self.indices_view(), self.shape_view())
        &&& self.compound_view() == encode(self.indices_view(), self.shape_view())
    }

    /// The all-zero state, whose flat index is 0.
    pub fn new_init_state(shape: &'a Vec<usize>) -> (r: Self)
        requires
            shape_ok(shape@),
        ensures
            r.wf(),
            r.shape_view() == shape@,
            r.indices_view() == Seq::new(shape@.len(), |i: int| 0usize),
            r.compound_view() == 0,
    {
        let mut indices: Vec<usize> = Vec::new();
        let mut i: usize = 0;
        while i < shape.len()
            invariant
                i <= shape@.len(),
                indices@ == Seq::new(i as nat, |j: int| 0usize),
            decreases shape@.len() - i,
        {
            indices.push(0);
            i += 1;
        }
        proof {
            lemma_encode_zeros(indices@, shape@);
        }
        DenseState { shape, indices, compound: 0 }
    }

    /// The state with the given tuple, or `IndexOutOfRange` where the tuple
    /// does not lie in the shape.
    pub fn new_from_indices(indices: Vec<usize>, shape: &'a Vec<usize>) -> (r: Result<Self, BasisError>)
        requires
            shape_ok(shape@),
        ensures
            indices_ok(indices@, shape@) <==> r is Ok,
            r is Err ==> r == Err::<Self, BasisError>(BasisError::IndexOutOfRange),
            r matches Ok(s) ==> (s.wf() && s.shape_view() == shape@ && s.indices_view() == indices@
                && s.compound_view() == encode(indices@, shape@)),
    {
        let n = shape.len();
        if indices.len() != n {
            return Err(BasisError::IndexOutOfRange);
        }
        let mut k: usize = 0;
        while k < n
            invariant
                k <= n,
                n == shape@.len(),
                n == indices@.len(),
                forall|j: int| 0 <= j < k ==> indices@[j] < shape@[j],
            decreases n - k,
        {
            if indices[k] >= shape[k] {
                return Err(BasisError::IndexOutOfRange);
            }
            k += 1;
        }
        Ok(Self::from_valid_indices(indices, shape))
    }

    /// The state with a tuple already known to lie in the shape.
    fn from_valid_indices(indices: Vec<usize>, shape: &'a Vec<usize>) -> (s: Self)
        requires
            shape_ok(shape@),
            indices_ok(indices@, shape@),
        ensures
            s.wf(),
            s.shape_view() == shape@,
            s.indices_view() == indices@,
    {
        let n = shape.len();
        let mut compound: usize = 0;
        let mut prod: usize = 1;
        let mut i: usize = n;
        proof {
            assert(indices@.skip(n as int) =~= Seq::<usize>::empty());
            assert(shape@.skip(n as int) =~= Seq::<usize>::empty());
        }
        while i > 0
            invariant
                i <= n,
                n == shape@.len(),
                n == indices@.len(),
                shape_ok(shape@),
                indices_ok(indices@, shape@),
                compound == encode(indices@.skip(i as int), shape@.skip(i as int)),
                prod == shape_product(shape@.skip(i as int)),
                compound < prod,
            decreases i,
        {
            let j = i - 1;
            proof {
                lemma_product_skip_le(shape@, j as int);
                assert(shape@.skip(j as int).drop_first() =~= shape@.skip(i as int));
                assert(indices@.skip(j as int).drop_first() =~= indices@.skip(i as int));
                let a = indices@[j as int] as nat;
                let s = shape@[j as int] as nat;
                let p = prod as nat;
                let c = compound as nat;
                assert(shape_product(shape@.skip(j as int)) == s * p);
                assert(p * s == s * p) by (nonlinear_arith);
                assert(a * p + c < s * p) by (nonlinear_arith)
                    requires
                        a < s,
                        c < p,
                ;
            }
            compound = compound + indices[j] * prod;
            prod = prod * shape[j];
            i = j;
        }
        proof {
            assert(indices@.skip(0) =~= indices@);
            assert(shape@.skip(0) =~= shape@);
        }
        DenseState { shape, indices, compound }
    }

    /// The state whose flat index is `compound`, or `IndexOutOfRange` where
    /// `compound` is not below the product of the shape.
    pub fn new_from_compound(compound: usize, shape: &'a Vec<usize>) -> (r: Result<Self, BasisError>)
        requires
            shape_ok(shape@),
        ensures
            compound < shape_product(shape@) <==> r is Ok,
            r is Err ==> r == Err::<Self, BasisError>(BasisError::IndexOutOfRange),
            r matches Ok(s) ==> (s.wf() && s.shape_view() == shape@ && s.compound_view()
                == compound),
    {
        let n = shape.len();
        let total = product_of(shape);
        if compound >= total {
            return Err(BasisError::IndexOutOfRange);
        }
        let mut indices: Vec<usize> = Vec::new();
        let mut k: usize = 0;
        while k < n
            invariant
                k <= n,
                n == shape@.len(),
                indices@.len() == k,
                forall|j: int| 0 <= j < k ==> indices@[j] == 0,
            decreases n - k,
        {
            indices.push(0);
            k += 1;
        }
        let mut c: usize = compound;
        let mut i: usize = n;
        proof {
            assert(indices@.skip(n as int) =~= Seq::<usize>::empty());
            assert(shape@.skip(n as int) =~= Seq::<usize>::empty());
            assert(compound == c * shape_product(shape@.skip(n as int))) by (nonlinear_arith)
                requires
                    shape_product(shape@.skip(n as int)) == 1,
                    c == compound,
            ;
        }
        while i > 0
            invariant
                i <= n,
                n == shape@.len(),
                n == indices@.len(),
                shape_ok(shape@),
                compound < shape_product(shape@),
                forall|j: int| i <= j < n ==> indices@[j] < shape@[j],
                compound == c * shape_product(shape@.skip(i as int)) + encode(
                    indices@.skip(i as int),
                    shape@.skip(i as int),
                ),
            decreases i,
        {
            let j = i - 1;
            let s = shape[j];
            let q = c / s;
            let rem = c % s;
            let ghost old_indices = indices@;
            indices.set(j, rem);
            proof {
                assert(indices@.skip(i as int) =~= old_indices.skip(i as int));
                assert(shape@.skip(j as int).drop_first() =~= shape@.skip(i as int));
                assert(indices@.skip(j as int).drop_first() =~= indices@.skip(i as int));
                vstd::arithmetic::div_mod::lemma_fundamental_div_mod(c as int, s as int);
                let p = shape_product(shape@.skip(i as int)) as int;
                let e = encode(indices@.skip(i as int), shape@.skip(i as int)) as int;
                assert(c * p + e == q * (s * p) + (rem * p + e)) by (nonlinear_arith)
                    requires
                        c == s * q + rem,
                ;
            }
            c = q;
            i = j;
        }
        proof {
            assert(indices@.skip(0) =~= indices@);
            assert(shape@.skip(0) =~= shape@);
            let p = shape_product(shape@) as int;
            let e = encode(indices@, shape@) as int;
            assert(c == 0) by (nonlinear_arith)
                requires
                    compound == c * p + e,
                    compound < p,
                    e >= 0,
                    c >= 0,
            ;
        }
        Ok(DenseState { shape, indices, compound })
    }

    /// The shape the state indexes.
    pub fn shape(&self) -> (r: &'a Vec<usize>)
        ensures
            r@ == self.shape_view(),
    {
        self.shape
    }

    /// The index tuple.
    pub fn indices(&self) -> (r: &Vec<usize>)
        ensures
            r@ == self.indices_view(),
    {
        &self.indices
    }

    /// The flat index.
    pub fn compound(&self) -> (r: usize)
        ensures
            r == self.compound_view(),
    {
        self.compound
    }
}

/// Enumerates, lazily and once, the states that differ from a start state
/// in exactly one position, each with sign `+1`.
pub struct DenseOneBodyIterator<'a> {
    start_state: &'a DenseState<'a>,
    pos: usize,
    offset: usize,
}

impl<'a> DenseOneBodyIterator<'a> {
    /// The state whose neighbours are enumerated.
    pub closed spec fn start(&self) -> DenseState<'a> {
        *self.start_state
    }

    /// The index tuples still to come, in order.
    pub closed spec fn rest(&self) -> Seq<Seq<usize>> {
        cursor_rest(
            self.start_state.shape_view(),
            self.start_state.indices_view(),
            self.pos as nat,
            self.offset as nat,
        )
    }

    /// The start state is well formed and the cursor lies in its shape.
    pub closed spec fn wf(&self) -> bool {
        &&& self.start_state.wf()
        &&& cursor_ok(self.start_state.shape_view(), self.pos as nat, self.offset as nat)
    }

    /// All one-position neighbours of `start_state`.
    pub fn new(start_state: &'a DenseState<'a>) -> (r: Self)
        requires
            start_state.wf(),
        ensures
            r.wf(),
            r.start() == *start_state,
            r.rest() == one_body_list(
                start_state.shape_view(),
                start_state.indices_view(),
                start_state.shape_view().len(),
            ),
    {
        let n = start_state.shape.len();
        proof {
            lemma_cursor_fresh(start_state.shape_view(), start_state.indices_view(), n as nat);
        }
        DenseOneBodyIterator { start_state, pos: n, offset: 0 }
    }

    /// All one-position neighbours of `start_state`, exactly as `new` gives
    /// them. The enumeration always begins at the least significant position
    /// and covers every position, so the requested starting position is
    /// overridden.
    pub fn new_with_pos(start_state: &'a DenseState<'a>, _pos: usize) -> (r: Self)
        requires
            start_state.wf(),
        ensures
            r.wf(),
            r.start() == *start_state,
            r.rest() == one_body_list(
                start_state.shape_view(),
                start_state.indices_view(),
                start_state.shape_view().len(),
            ),
    {
        Self::new(start_state)
    }

    /// The state whose neighbours are enumerated.
    pub fn start_state(&self) -> (r: &'a DenseState<'a>)
        ensures
            *r == self.start(),
    {
        self.start_state
    }

    /// The next neighbour with its sign, or `None` once all have been produced.
    pub fn next(&mut self) -> (r: Option<(i64, DenseState<'a>)>)
        requires
            old(self).wf(),
        ensures
            final(self).wf(),
            final(self).start() == old(self).start(),
            old(self).rest().len() == 0 ==> r is None && final(self).rest().len() == 0,
            old(self).rest().len() > 0 ==> (r matches Some(item) && item.0 == 1 && item.1.wf()
                && item.1.shape_view() == old(self).start().shape_view()
                && item.1.indices_view() == old(self).rest()[0]
                && final(self).rest() == old(self).rest().drop_first()),
    {
        let mut pos = self.pos;
        let mut offset = self.offset;
        let step = cursor_step(self.start_state.shape, &self.start_state.indices, &mut pos, &mut offset);
        self.pos = pos;
        self.offset = offset;
        match step {
            Some(v) => Some((1, DenseState::from_valid_indices(v, self.start_state.shape))),
            None => None,
        }
    }
}

/// Enumerates, lazily and once, the states that differ from a start state
/// in exactly two positions, each with sign `+1`. An outer cursor holds a
/// changed value at the more significant position while an inner cursor
/// sweeps every less significant one.
pub struct DenseTwoBodyIterator<'a> {
    start_state: &'a DenseState<'a>,
    outer: usize,
    outer_offset: usize,
    base: Vec<usize>,
    inner: usize,
    inner_offset: usize,
}

impl<'a> DenseTwoBodyIterator<'a> {
    /// The state whose neighbours are enumerated.
    pub closed spec fn start(&self) -> DenseState<'a> {
        *self.start_state
    }

    /// Whether the outer cursor holds a value at position `outer - 1`.
    closed spec fn outer_active(&self) -> bool {
        self.outer > 0 && self.outer_offset + 1 < self.start_state.shape_view()[self.outer - 1]
    }

    /// The index tuples still to come, in order.
    pub closed spec fn rest(&self) -> Seq<Seq<usize>> {
        let shape = self.start_state.shape_view();
        let start = self.start_state.indices_view();
        if self.outer == 0 {
            Seq::empty()
        } else {
            (if self.outer_active() {
                cursor_rest(shape, self.base@, self.inner as nat, self.inner_offset as nat)
                    + outer_from(shape, start, self.outer - 1, self.outer_offset as nat + 1)
            } else {
                Seq::empty()
            }) + two_body_list(shape, start, (self.outer - 1) as nat)
        }
    }

    /// The start state is well formed and both cursors lie in its shape.
    pub closed spec fn wf(&self) -> bool {
        let shape = self.start_state.shape_view();
        &&& self.start_state.wf()
        &&& self.outer <= shape.len()
        &&& indices_ok(self.base@, shape)
        &&& self.outer > 0 ==> self.outer_offset < shape[self.outer - 1]
        &&& self.outer_active() ==> {
            &&& self.base@ == lift(
                shape,
                self.start_state.indices_view(),
                self.outer - 1,
                self.outer_offset as nat,
            )
            &&& self.inner < self.outer
            &&& cursor_ok(shape, self.inner as nat, self.inner_offset as nat)
        }
    }

    /// Sets the cursors to the first outer value at position `outer - 1`.
    fn reset_outer(&mut self, outer: usize)
        requires
            old(self).start_state.wf(),
            0 < outer <= old(self).start_state.shape_view().len(),
        ensures
            final(self).start_state == old(self).start_state,
            final(self).outer == outer,
            final(self).outer_offset == 0,
            final(self).inner == outer - 1,
            final(self).wf(),
            final(self).rest() == two_body_list(
                old(self).start_state.shape_view(),
                old(self).start_state.indices_view(),
                outer as nat,
            ),
    {
        let shape = self.start_state.shape;
        let r = outer - 1;
        self.outer = outer;
        self.outer_offset = 0;
        self.inner = r;
        self.inner_offset = 0;
        if 1 < shape[r] {
            self.base = lift_exec(shape, &self.start_state.indices, r, 0);
            proof {
                lemma_cursor_fresh(shape@, self.base@, r as nat);
            }
        } else {
            self.base = self.start_state.indices.clone();
        }
        proof {
            let s = self.start_state.shape_view();
            let st = self.start_state.indices_view();
            if 1 < shape@[r as int] {
                assert(outer_from(s, st, r as int, 0) == one_body_list(s, self.base@, r as nat)
                    + outer_from(s, st, r as int, 1));
            }
        }
    }

    /// All two-position neighbours of `start_state`.
    pub fn new(start_state: &'a DenseState<'a>) -> (r: Self)
        requires
            start_state.wf(),
        ensures
            r.wf(),
            r.start() == *start_state,
            r.rest() == two_body_list(
                start_state.shape_view(),
                start_state.indices_view(),
                start_state.shape_view().len(),
            ),
            start_state.shape_view().len() > 0 ==> r.outer_position()
                == start_state.shape_view().len() - 1,
            start_state.shape_view().len() >= 2 ==> r.inner_position()
                == start_state.shape_view().len() - 2,
    {
        let mut it = DenseTwoBodyIterator {
            start_state,
            outer: 0,
            outer_offset: 0,
            base: start_state.indices.clone(),
            inner: 0,
            inner_offset: 0,
        };
        let n = start_state.shape.len();
        if n > 0 {
            it.reset_outer(n);
        }
        it
    }

    /// The state whose neighbours are enumerated.
    pub fn start_state(&self) -> (r: &'a DenseState<'a>)
        ensures
            *r == self.start(),
    {
        self.start_state
    }

    /// The position at which the outer cursor holds a changed value.
    pub closed spec fn outer_position(&self) -> usize {
        if self.outer == 0 { 0 } else { (self.outer - 1) as usize }
    }

    /// The position the inner cursor sweeps.
    pub closed spec fn inner_position(&self) -> usize {
        if self.inner == 0 { 0 } else { (self.inner - 1) as usize }
    }

    /// How many outer values are left at the current outer position.
    closed spec fn outer_slack(&self) -> int {
        if self.outer == 0 {
            0
        } else {
            self.start_state.shape_view()[self.outer - 1] - self.outer_offset
        }
    }

    /// The position the outer cursor changes.
    pub fn pos_r(&self) -> (r: usize)
        ensures
            r == self.outer_position(),
    {
        if self.outer == 0 { 0 } else { self.outer - 1 }
    }

    /// The position the inner cursor sweeps.
    pub fn pos_l(&self) -> (r: usize)
        ensures
            r == self.inner_position(),
    {
        if self.inner == 0 { 0 } else { self.inner - 1 }
    }

    /// The next neighbour with its sign, or `None` once all have been produced.
    pub fn next(&mut self) -> (r: Option<(i64, DenseState<'a>)>)
        requires
            old(self).wf(),
        ensures
            final(self).wf(),
            final(self).start() == old(self).start(),
            old(self).rest().len() == 0 ==> r is None && final(self).rest().len() == 0,
            old(self).rest().len() > 0 ==> (r matches Some(item) && item.0 == 1 && item.1.wf()
                && item.1.shape_view() == old(self).start().shape_view()
                && item.1.indices_view() == old(self).rest()[0]
                && final(self).rest() == old(self).rest().drop_first()),
    {
        let ghost rest0 = self.rest();
        let ghost shape = self.start_state.shape_view();
        let ghost start = self.start_state.indices_view();
        loop
            invariant
                self.wf(),
                self.start_state == old(self).start_state,
                rest0 == old(self).rest(),
                self.rest() == rest0,
                shape == self.start_state.shape_view(),
                start == self.start_state.indices_view(),
            decreases self.outer, self.outer_slack(),
        {
            if self.outer == 0 {
                return None;
            }
            let r = self.outer - 1;
            let d = self.start_state.shape[r];
            if self.outer_offset + 1 < d {
                let mut inner = self.inner;
                let mut inner_offset = self.inner_offset;
                let step = cursor_step(self.start_state.shape, &self.base, &mut inner, &mut inner_offset);
                self.inner = inner;
                self.inner_offset = inner_offset;
                match step {
                    Some(v) => {
                        return Some((1, DenseState::from_valid_indices(v, self.start_state.shape)));
                    },
                    None => {},
                }
                self.outer_offset = self.outer_offset + 1;
                if self.outer_offset + 1 < d {
                    self.base = lift_exec(self.start_state.shape, &self.start_state.indices, r, self.outer_offset);
                    self.inner = r;
                    self.inner_offset = 0;
                    proof {
                        lemma_cursor_fresh(shape, self.base@, r as nat);
                    }
                }
            } else if r == 0 {
                self.outer = 0;
                self.outer_offset = 0;
                return None;
            } else {
                self.reset_outer(r);
            }
        }
    }
}

/// Round trip between the two forms of a state: the flat index of a valid
/// tuple `v` lies below the product of the shape, so `new_from_compound`
/// accepts it, and the only tuple of the shape with that flat index, which
/// is the one `new_from_compound` returns, is `v` itself.
pub proof fn lemma_round_trip(shape: Seq<usize>, v: Seq<usize>, w: Seq<usize>)
    requires
        shape_ok(shape),
        indices_ok(v, shape),
        indices_ok(w, shape),
        encode(w, shape) == encode(v, shape),
    ensures
        encode(v, shape) < shape_product(shape),
        w == v,
{
    lemma_encode_bound(v, shape);
    lemma_encode_injective(v, w, shape);
}

/// The product of the dimensions of a valid shape.
fn product_of(shape: &Vec<usize>) -> (r: usize)
    requires
        shape_ok(shape@),
    ensures
        r == shape_product(shape@),
{
    let mut prod: usize = 1;
    let mut i: usize = shape.len();
    proof {
        assert(shape@.skip(shape@.len() as int) =~= Seq::<usize>::empty());
    }
    while i > 0
        invariant
            i <= shape@.len(),
            shape_ok(shape@),
            prod == shape_product(shape@.skip(i as int)),
        decreases i,
    {
        proof {
            lemma_product_skip_le(shape@, i - 1);
            assert(shape@.skip(i - 1).drop_first() =~= shape@.skip(i as int));
            let s = shape@[i - 1] as nat;
            let p = prod as nat;
            assert(shape_product(shape@.skip(i - 1)) == s * p);
            assert(p * s == s * p) by (nonlinear_arith);
        }
        prod = prod * shape[i - 1];
        i -= 1;
    }
    proof {
        assert(shape@.skip(0) =~= shape@);
    }
    prod
}

/// The all-zero tuple has flat index 0.
proof fn lemma_encode_zeros(indices: Seq<usize>, shape: Seq<usize>)
    requires
        indices.len() == shape.len(),
        forall|i: int| 0 <= i < indices.len() ==> indices[i] == 0,
    ensures
        encode(indices, shape) == 0,
    decreases indices.len(),
{
    if indices.len() > 0 {
        lemma_encode_zeros(indices.drop_first(), shape.drop_first());
    }
}

} // verus!
