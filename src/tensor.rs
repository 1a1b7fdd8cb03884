use vstd::prelude::*;
use crate::ids::UniqueIds;
use crate::shape::{product, Shape};
use crate::tape::GradientTape;

verus! {

/// A fixed-shape array of elements with its id.
pub struct Tensor<T> {
    id: usize,
    shape: Shape,
    data: Vec<T>,
}

impl<T: Copy> Tensor<T> {
    pub closed spec fn spec_id(&self) -> usize {
        self.id
    }

    pub closed spec fn spec_shape(&self) -> Seq<usize> {
        self.shape@
    }

    pub closed spec fn elements(&self) -> Seq<T> {
        self.data@
    }

    /// The element count is the product of the extents.
    pub closed spec fn wf(&self) -> bool {
        &&& self.shape.wf()
        &&& self.data@.len() == product(self.shape@)
    }

    /// A tensor of the given shape with every element `value`, and a fresh id.
    pub fn filled(shape: Shape, value: T, ids: &mut UniqueIds) -> (r: Tensor<T>)
        requires
            shape.wf(),
            old(ids).wf(),
            old(ids).next_value() < usize::MAX,
        ensures
            r.wf(),
            r.spec_shape() == shape@,
            r.elements() == Seq::new(product(shape@) as nat, |i: int| value),
            r.spec_id() == old(ids).next_value(),
            final(ids).wf(),
            final(ids).next_value() == old(ids).next_value() + 1,
            final(ids).issued() == old(ids).issued().insert(r.spec_id()),
    {
        let n = shape.num_elements();
        let mut data: Vec<T> = Vec::with_capacity(n);
        let mut i: usize = 0;
        while i < n
            invariant
                i <= n,
                data@ == Seq::new(i as nat, |k: int| value),
            decreases n - i,
        {
            data.push(value);
            i = i + 1;
            assert(data@ =~= Seq::new(i as nat, |k: int| value));
        }
        let id = ids.next_id();
        Tensor { id, shape, data }
    }

    /// A tensor of the given shape holding `data` in row-major order, with a fresh
    /// id; `None`, and no id issued, when the length is not the element count.
    pub fn from_vec(shape: Shape, data: Vec<T>, ids: &mut UniqueIds) -> (r: Option<Tensor<T>>)
        requires
            shape.wf(),
            old(ids).wf(),
            old(ids).next_value() < usize::MAX,
        ensures
            final(ids).wf(),
            r is Some <==> data@.len() == product(shape@),
            r matches Some(t) ==> {
                &&& t.wf()
                &&& t.spec_shape() == shape@
                &&& t.elements() == data@
                &&& t.spec_id() == old(ids).next_value()
                &&& final(ids).next_value() == old(ids).next_value() + 1
                &&& final(ids).issued() == old(ids).issued().insert(t.spec_id())
            },
            r is None ==> *final(ids) == *old(ids),
    {
        if data.len() != shape.num_elements() {
            return None;
        }
        let id = ids.next_id();
        Some(Tensor { id, shape, data })
    }

    /// The id.
    pub fn id(&self) -> (r: usize)
        ensures
            r == self.spec_id(),
    {
        self.id
    }

    /// The shape.
    pub fn shape(&self) -> (r: &Shape)
        requires
            self.wf(),
        ensures
            r@ == self.spec_shape(),
            r.wf(),
    {
        &self.shape
    }

    /// The elements, in row-major order.
    pub fn data(&self) -> (r: &Vec<T>)
        ensures
            r@ == self.elements(),
    {
        &self.data
    }

    /// Overwrites the element at `index` (row-major); id and shape are kept.
    pub fn set(&mut self, index: usize, value: T)
        requires
            old(self).wf(),
            index < old(self).elements().len(),
        ensures
            final(self).wf(),
            final(self).spec_id() == old(self).spec_id(),
            final(self).spec_shape() == old(self).spec_shape(),
            final(self).elements() == old(self).elements().update(index as int, value),
    {
        self.data.set(index, value);
    }

    /// Maps `forward` over every element into a new tensor of the same shape with
    /// a fresh id. Nothing is recorded.
    pub fn apply<F: Fn(T) -> T>(&self, forward: F, ids: &mut UniqueIds) -> (r: Tensor<T>)
        requires
            self.wf(),
            old(ids).wf(),
            old(ids).next_value() < usize::MAX,
            forall|x: T| forward.requires((x,)),
        ensures
            r.wf(),
            r.spec_shape() == self.spec_shape(),
            r.elements().len() == self.elements().len(),
            forall|i: int|
                0 <= i < self.elements().len() ==> forward.ensures(
                    (self.elements()[i],),
                    #[trigger] r.elements()[i],
                ),
            r.spec_id() == old(ids).next_value(),
            final(ids).wf(),
            final(ids).next_value() == old(ids).next_value() + 1,
            final(ids).issued() == old(ids).issued().insert(r.spec_id()),
    {
        let n = self.data.len();
        let mut data: Vec<T> = Vec::with_capacity(n);
        let mut i: usize = 0;
        while i < n
            invariant
                i <= n,
                n == self.data@.len(),
                data@.len() == i,
                forall|x: T| forward.requires((x,)),
                forall|k: int| 0 <= k < i ==> forward.ensures((self.data@[k],), #[trigger] data@[k]),
            decreases n - i,
        {
            let y = forward(self.data[i]);
            data.push(y);
            i = i + 1;
        }
        let id = ids.next_id();
        Tensor { id, shape: self.shape.clone_shape(), data }
    }

    /// As `apply`, and records on `tape` an entry that reads this tensor's id and
    /// produces the new one.
    pub fn apply_traced<F: Fn(T) -> T>(
        &self,
        forward: F,
        ids: &mut UniqueIds,
        tape: &mut GradientTape,
    ) -> (r: Tensor<T>)
        requires
            self.wf(),
            old(ids).wf(),
            old(ids).next_value() < usize::MAX,
            forall|x: T| forward.requires((x,)),
        ensures
            r.wf(),
            r.spec_shape() == self.spec_shape(),
            r.elements().len() == self.elements().len(),
            forall|i: int|
                0 <= i < self.elements().len() ==> forward.ensures(
                    (self.elements()[i],),
                    #[trigger] r.elements()[i],
                ),
            r.spec_id() == old(ids).next_value(),
            final(ids).wf(),
            final(ids).next_value() == old(ids).next_value() + 1,
            final(ids).issued() == old(ids).issued().insert(r.spec_id()),
            final(tape)@ == old(tape)@.push((seq![self.spec_id()], r.spec_id())),
    {
        let r = self.apply(forward, ids);
        let parents: Vec<usize> = vec![self.id];
        assert(parents@ =~= seq![self.id]);
        tape.record(parents, r.id);
        r
    }

    /// Gradient-descent step: replaces each element `x` by `descend(x, g)`, `g` the
    /// matching element of `gradient`. Id and shape are kept.
    pub fn update_with<F: Fn(T, T) -> T>(&mut self, gradient: &Vec<T>, descend: F)
        requires
            old(self).wf(),
            gradient@.len() == old(self).elements().len(),
            forall|x: T, g: T| descend.requires((x, g)),
        ensures
            final(self).wf(),
            final(self).spec_id() == old(self).spec_id(),
            final(self).spec_shape() == old(self).spec_shape(),
            final(self).elements().len() == old(self).elements().len(),
            forall|i: int|
                0 <= i < old(self).elements().len() ==> descend.ensures(
                    (old(self).elements()[i], gradient@[i]),
                    #[trigger] final(self).elements()[i],
                ),
    {
        let n = self.data.len();
        let mut i: usize = 0;
        while i < n
            invariant
                i <= n,
                n == self.data@.len(),
                n == old(self).data@.len(),
                gradient@.len() == n,
                self.id == old(self).id,
                self.shape == old(self).shape,
                forall|x: T, g: T| descend.requires((x, g)),
                forall|k: int| i <= k < n ==> self.data@[k] == old(self).data@[k],
                forall|k: int|
                    0 <= k < i ==> descend.ensures(
                        (old(self).data@[k], gradient@[k]),
                        #[trigger] self.data@[k],
                    ),
            decreases n - i,
        {
            let y = descend(self.data[i], gradient[i]);
            self.data.set(i, y);
            i = i + 1;
        }
    }
}

} // verus!
