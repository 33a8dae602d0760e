use crate::coord_util::{box_buffer_size, coord_to_linear_in_box, copy_coord, Aabb};
use vstd::prelude::*;

verus! {

/// A vector of `n` copies of `fill`.
pub fn filled<T: Copy>(n: usize, fill: T) -> (r: Vec<T>)
    ensures
        r@.len() == n,
        forall|i: int| 0 <= i < n ==> r@[i] == fill,
{
    let mut r: Vec<T> = Vec::new();
    let mut i: usize = 0;
    while i < n
        invariant
            i <= n,
            r@.len() == i,
            forall|k: int| 0 <= k < i ==> r@[k] == fill,
        decreases n - i,
    {
        r.push(fill);
        i = i + 1;
    }
    r
}

/// Values over a 4-axis box (x, y, z, direction), stored row-major.
pub struct Array4D<T> {
    pub dimensions: Aabb,
    pub size: usize,
    pub buffer: Vec<T>,
}

impl<T: Copy> Array4D<T> {
    /// The box is a well-formed 4-axis box and the buffer holds one value per point of it.
    pub open spec fn wf(&self) -> bool {
        &&& self.dimensions.wf()
        &&& self.dimensions.dim() == 4
        &&& self.size == self.dimensions.size()
        &&& self.buffer@.len() == self.size
    }

    /// The value stored at point `c`.
    pub open spec fn at(&self, c: Seq<i32>) -> T {
        self.buffer@[self.dimensions.linear(c)]
    }

    /// An array over `dimensions` with every value set to `fill`.
    pub fn new(dimensions: Aabb, fill: T) -> (r: Self)
        requires
            dimensions.wf(),
            dimensions.dim() == 4,
            dimensions.size() <= usize::MAX,
        ensures
            r.wf(),
            r.dimensions.same_as(&dimensions),
            forall|i: int| 0 <= i < r.size ==> r.buffer@[i] == fill,
    {
        let size = box_buffer_size(&dimensions);
        Array4D { dimensions, size, buffer: filled(size, fill) }
    }

    /// The value stored at `coord`.
    pub fn get(&self, coord: &Vec<i32>) -> (r: T)
        requires
            self.wf(),
            self.dimensions.contains(coord@),
        ensures
            r == self.at(coord@),
    {
        let index = coord_to_linear_in_box(coord, &self.dimensions);
        self.buffer[index]
    }

    /// Stores `value` at `coord`, leaving every other point as it was.
    pub fn set(&mut self, coord: &Vec<i32>, value: T)
        requires
            old(self).wf(),
            old(self).dimensions.contains(coord@),
        ensures
            final(self).wf(),
            final(self).dimensions == old(self).dimensions,
            final(self).buffer@ == old(self).buffer@.update(old(self).dimensions.linear(coord@), value),
    {
        let index = coord_to_linear_in_box(coord, &self.dimensions);
        self.buffer.set(index, value);
    }

    /// The value stored at spatial point `grid_coord`, direction `q`.
    pub fn get_q(&self, grid_coord: &Vec<i32>, q: i32) -> (r: T)
        requires
            self.wf(),
            self.dimensions.contains(grid_coord@.push(q)),
        ensures
            r == self.at(grid_coord@.push(q)),
    {
        let mut coord = copy_coord(grid_coord);
        coord.push(q);
        self.get(&coord)
    }

    /// Stores `value` at spatial point `grid_coord`, direction `q`.
    pub fn set_q(&mut self, grid_coord: &Vec<i32>, q: i32, value: T)
        requires
            old(self).wf(),
            old(self).dimensions.contains(grid_coord@.push(q)),
        ensures
            final(self).wf(),
            final(self).dimensions == old(self).dimensions,
            final(self).buffer@ == old(self).buffer@.update(
                old(self).dimensions.linear(grid_coord@.push(q)),
                value,
            ),
    {
        let mut coord = copy_coord(grid_coord);
        coord.push(q);
        self.set(&coord, value);
    }
}

/// Scalar values over a 3-axis box, stored row-major.
pub struct Array3D<T> {
    pub dimensions: Aabb,
    pub size: usize,
    pub buffer: Vec<T>,
}

impl<T: Copy> Array3D<T> {
    /// The box is a well-formed 3-axis box and the buffer holds one value per point of it.
    pub open spec fn wf(&self) -> bool {
        &&& self.dimensions.wf()
        &&& self.dimensions.dim() == 3
        &&& self.size == self.dimensions.size()
        &&& self.buffer@.len() == self.size
    }

    /// The value stored at point `c`.
    pub open spec fn at(&self, c: Seq<i32>) -> T {
        self.buffer@[self.dimensions.linear(c)]
    }

    /// An array over `dimensions` with every value set to `fill`.
    pub fn new(dimensions: Aabb, fill: T) -> (r: Self)
        requires
            dimensions.wf(),
            dimensions.dim() == 3,
            dimensions.size() <= usize::MAX,
        ensures
            r.wf(),
            r.dimensions.same_as(&dimensions),
            forall|i: int| 0 <= i < r.size ==> r.buffer@[i] == fill,
    {
        let size = box_buffer_size(&dimensions);
        Array3D { dimensions, size, buffer: filled(size, fill) }
    }

    /// The value stored at `coord`.
    pub fn get(&self, coord: &Vec<i32>) -> (r: T)
        requires
            self.wf(),
            self.dimensions.contains(coord@),
        ensures
            r == self.at(coord@),
    {
        let index = coord_to_linear_in_box(coord, &self.dimensions);
        self.buffer[index]
    }

    /// Stores `value` at `coord`, leaving every other point as it was.
    pub fn set(&mut self, coord: &Vec<i32>, value: T)
        requires
            old(self).wf(),
            old(self).dimensions.contains(coord@),
        ensures
            final(self).wf(),
            final(self).dimensions == old(self).dimensions,
            final(self).buffer@ == old(self).buffer@.update(old(self).dimensions.linear(coord@), value),
    {
        let index = coord_to_linear_in_box(coord, &self.dimensions);
        self.buffer.set(index, value);
    }
}

/// Vector values over a 3-axis box, stored row-major.
pub struct VelArray<T> {
    pub dimensions: Aabb,
    pub size: usize,
    pub buffer: Vec<T>,
}

impl<T: Copy> VelArray<T> {
    /// The box is a well-formed 3-axis box and the buffer holds one value per point of it.
    pub open spec fn wf(&self) -> bool {
        &&& self.dimensions.wf()
        &&& self.dimensions.dim() == 3
        &&& self.size == self.dimensions.size()
        &&& self.buffer@.len() == self.size
    }

    /// The value stored at point `c`.
    pub open spec fn at(&self, c: Seq<i32>) -> T {
        self.buffer@[self.dimensions.linear(c)]
    }

    /// An array over `dimensions` with every value set to `fill`.
    pub fn new(dimensions: Aabb, fill: T) -> (r: Self)
        requires
            dimensions.wf(),
            dimensions.dim() == 3,
            dimensions.size() <= usize::MAX,
        ensures
            r.wf(),
            r.dimensions.same_as(&dimensions),
            forall|i: int| 0 <= i < r.size ==> r.buffer@[i] == fill,
    {
        let size = box_buffer_size(&dimensions);
        VelArray { dimensions, size, buffer: filled(size, fill) }
    }

    /// The value stored at `coord`.
    pub fn get(&self, coord: &Vec<i32>) -> (r: T)
        requires
            self.wf(),
            self.dimensions.contains(coord@),
        ensures
            r == self.at(coord@),
    {
        let index = coord_to_linear_in_box(coord, &self.dimensions);
        self.buffer[index]
    }

    /// Stores `value` at `coord`, leaving every other point as it was.
    pub fn set(&mut self, coord: &Vec<i32>, value: T)
        requires
            old(self).wf(),
            old(self).dimensions.contains(coord@),
        ensures
            final(self).wf(),
            final(self).dimensions == old(self).dimensions,
            final(self).buffer@ == old(self).buffer@.update(old(self).dimensions.linear(coord@), value),
    {
        let index = coord_to_linear_in_box(coord, &self.dimensions);
        self.buffer.set(index, value);
    }
}

} // verus!
