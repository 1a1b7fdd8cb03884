use vstd::prelude::*;

verus! {

/// The largest rank a tensor may have.
pub const MAX_RANK: usize = 4;

/// Product of the extents of a shape; the empty shape (rank 0) holds one element.
pub open spec fn product(dims: Seq<usize>) -> int
    decreases dims.len(),
{
    if dims.len() == 0 {
        1
    } else {
        product(dims.drop_last()) * dims.last()
    }
}

pub proof fn lemma_product_nonneg(dims: Seq<usize>)
    ensures
        product(dims) >= 0,
    decreases dims.len(),
{
    if dims.len() > 0 {
        lemma_product_nonneg(dims.drop_last());
        vstd::arithmetic::mul::lemma_mul_nonnegative(product(dims.drop_last()), dims.last() as int);
    }
}

/// The fixed extents of a tensor, of rank 0 to 4, whose element count fits in `usize`.
pub struct Shape {
    dims: Vec<usize>,
    len: usize,
}

impl View for Shape {
    type V = Seq<usize>;

    closed spec fn view(&self) -> Seq<usize> {
        self.dims@
    }
}

impl Shape {
    pub closed spec fn wf(&self) -> bool {
        &&& self.dims@.len() <= MAX_RANK
        &&& self.len as int == product(self.dims@)
    }

    /// A shape with the given extents; `None` when the rank exceeds 4 or the
    /// element count does not fit in `usize`.
    pub fn new(dims: Vec<usize>) -> (r: Option<Shape>)
        ensures
            r is Some <==> (dims@.len() <= MAX_RANK && product(dims@) <= usize::MAX),
            r matches Some(s) ==> s.wf() && s@ == dims@,
    {
        if dims.len() > MAX_RANK {
            return None;
        }
        let mut z: usize = 0;
        while z < dims.len()
            invariant
                z <= dims@.len(),
                dims@.len() <= MAX_RANK,
                forall|j: int| 0 <= j < z ==> dims@[j] >= 1,
            decreases dims@.len() - z,
        {
            if dims[z] == 0 {
                proof {
                    lemma_product_zero(dims@, z as int);
                }
                return Some(Shape { dims, len: 0 });
            }
            z = z + 1;
        }
        let mut len: usize = 1;
        let mut i: usize = 0;
        while i < dims.len()
            invariant
                i <= dims@.len(),
                dims@.len() <= MAX_RANK,
                forall|j: int| 0 <= j < dims@.len() ==> dims@[j] >= 1,
                len as int == product(dims@.take(i as int)),
            decreases dims@.len() - i,
        {
            let d = dims[i];
            assert(dims@.take(i as int + 1).drop_last() =~= dims@.take(i as int));
            match len.checked_mul(d) {
                Some(v) => {
                    len = v;
                },
                None => {
                    proof {
                        lemma_product_prefix_bound(dims@, i as int + 1);
                    }
                    return None;
                },
            }
            i = i + 1;
        }
        assert(dims@.take(i as int) =~= dims@);
        Some(Shape { dims, len })
    }

    /// A copy of this shape.
    pub fn clone_shape(&self) -> (r: Shape)
        ensures
            r@ == self@,
            r.wf() == self.wf(),
    {
        Shape { dims: self.dims.clone(), len: self.len }
    }

    /// Number of axes.
    pub fn rank(&self) -> (r: usize)
        requires
            self.wf(),
        ensures
            r == self@.len(),
    {
        self.dims.len()
    }

    /// Total number of elements: the product of the extents.
    pub fn num_elements(&self) -> (r: usize)
        requires
            self.wf(),
        ensures
            r as int == product(self@),
    {
        self.len
    }

    /// Extent of one axis.
    pub fn extent(&self, axis: usize) -> (r: usize)
        requires
            self.wf(),
            axis < self@.len(),
        ensures
            r == self@[axis as int],
    {
        self.dims[axis]
    }
}

/// A zero extent makes the whole product zero.
proof fn lemma_product_zero(dims: Seq<usize>, k: int)
    requires
        0 <= k < dims.len(),
        dims[k] == 0,
    ensures
        product(dims) == 0,
    decreases dims.len(),
{
    let init = dims.drop_last();
    if k < dims.len() - 1 {
        assert(init[k] == dims[k]);
        lemma_product_zero(init, k);
        assert(product(init) * dims.last() == 0) by (nonlinear_arith)
            requires
                product(init) == 0,
        ;
    } else {
        assert(product(init) * dims.last() == 0) by (nonlinear_arith)
            requires
                dims.last() == 0,
        ;
    }
}

/// With every extent at least one, a prefix's product never exceeds the whole product.
proof fn lemma_product_prefix_bound(dims: Seq<usize>, k: int)
    requires
        0 <= k <= dims.len(),
        forall|j: int| 0 <= j < dims.len() ==> dims[j] >= 1,
    ensures
        product(dims.take(k)) <= product(dims),
    decreases dims.len(),
{
    if k == dims.len() {
        assert(dims.take(k) =~= dims);
    } else {
        let init = dims.drop_last();
        assert(init.take(k) =~= dims.take(k));
        lemma_product_prefix_bound(init, k);
        lemma_product_nonneg(init);
        assert(product(init) <= product(init) * dims.last()) by (nonlinear_arith)
            requires
                product(init) >= 0,
                dims.last() >= 1,
        ;
    }
}

} // verus!
