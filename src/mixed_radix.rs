//! Big-endian mixed-radix arithmetic over a shape, stated on sequences.
use vstd::prelude::*;

verus! {

/// Product of all dimension sizes of `shape`.
pub open spec fn shape_product(shape: Seq<usize>) -> nat
    decreases shape.len(),
{
    if shape.len() == 0 {
        1
    } else {
        shape[0] as nat * shape_product(shape.drop_first())
    }
}

/// The flat index of `indices`: `sum indices[i] * prod_{j > i} shape[j]`.
pub open spec fn encode(indices: Seq<usize>, shape: Seq<usize>) -> nat
    decreases indices.len(),
{
    if indices.len() == 0 {
        0
    } else {
        indices[0] as nat * shape_product(shape.drop_first()) + encode(
            indices.drop_first(),
            shape.drop_first(),
        )
    }
}

/// Every dimension is positive and the number of index tuples fits a `usize`.
pub open spec fn shape_ok(shape: Seq<usize>) -> bool {
    &&& forall|i: int| 0 <= i < shape.len() ==> shape[i] > 0
    &&& shape_product(shape) <= usize::MAX
}

/// `indices` is an index tuple of `shape`.
pub open spec fn indices_ok(indices: Seq<usize>, shape: Seq<usize>) -> bool {
    &&& indices.len() == shape.len()
    &&& forall|i: int| 0 <= i < shape.len() ==> indices[i] < shape[i]
}

/// Dropping a leading dimension never increases the product.
pub proof fn lemma_product_skip_le(shape: Seq<usize>, j: int)
    requires
        0 <= j <= shape.len(),
        forall|i: int| 0 <= i < shape.len() ==> shape[i] > 0,
    ensures
        shape_product(shape.skip(j)) <= shape_product(shape),
        shape_product(shape.skip(j)) >= 1,
    decreases j,
{
    if j == 0 {
        assert(shape.skip(0) =~= shape);
        lemma_product_positive(shape);
    } else {
        lemma_product_skip_le(shape, j - 1);
        let s = shape.skip(j - 1);
        assert(s.drop_first() =~= shape.skip(j));
        lemma_product_positive(shape.skip(j));
        let a = s[0] as nat;
        let p = shape_product(shape.skip(j));
        assert(a >= 1);
        assert(a * p >= p) by (nonlinear_arith)
            requires
                a >= 1,
        ;
    }
}

/// A shape of positive dimensions has a positive product.
pub proof fn lemma_product_positive(shape: Seq<usize>)
    requires
        forall|i: int| 0 <= i < shape.len() ==> shape[i] > 0,
    ensures
        shape_product(shape) >= 1,
    decreases shape.len(),
{
    if shape.len() > 0 {
        lemma_product_positive(shape.drop_first());
        let a = shape[0] as nat;
        let p = shape_product(shape.drop_first());
        assert(a * p >= 1) by (nonlinear_arith)
            requires
                a >= 1,
                p >= 1,
        ;
    }
}

/// The flat index of a valid tuple is below the product of the shape.
pub proof fn lemma_encode_bound(indices: Seq<usize>, shape: Seq<usize>)
    requires
        indices_ok(indices, shape),
    ensures
        encode(indices, shape) < shape_product(shape),
    decreases indices.len(),
{
    if indices.len() > 0 {
        lemma_encode_bound(indices.drop_first(), shape.drop_first());
        let a = indices[0] as nat;
        let s = shape[0] as nat;
        let p = shape_product(shape.drop_first());
        let e = encode(indices.drop_first(), shape.drop_first());
        assert(a * p + e < s * p) by (nonlinear_arith)
            requires
                a < s,
                e < p,
        ;
    }
}

/// Two valid tuples with the same flat index are the same tuple.
pub proof fn lemma_encode_injective(v: Seq<usize>, w: Seq<usize>, shape: Seq<usize>)
    requires
        indices_ok(v, shape),
        indices_ok(w, shape),
        encode(v, shape) == encode(w, shape),
    ensures
        v == w,
    decreases v.len(),
{
    if v.len() > 0 {
        let tail = shape.drop_first();
        lemma_encode_bound(v.drop_first(), tail);
        lemma_encode_bound(w.drop_first(), tail);
        let p = shape_product(tail);
        let a = v[0] as int;
        let b = w[0] as int;
        let e = encode(v.drop_first(), tail) as int;
        let f = encode(w.drop_first(), tail) as int;
        assert(a == b) by (nonlinear_arith)
            requires
                a * p + e == b * p + f,
                0 <= e < p,
                0 <= f < p,
                a >= 0,
                b >= 0,
        ;
        lemma_encode_injective(v.drop_first(), w.drop_first(), tail);
        assert(v =~= w) by {
            assert forall|i: int| 0 <= i < v.len() implies v[i] == w[i] by {
                if i > 0 {
                    assert(v[i] == v.drop_first()[i - 1]);
                    assert(w[i] == w.drop_first()[i - 1]);
                }
            }
        }
    }
}

} // verus!
