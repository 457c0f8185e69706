//! A 3D grid of values stored in linear index order.
use vstd::prelude::*;

use super::position::Position;

verus! {

/// A 3D grid of values.
#[derive(Debug, Clone)]
pub struct Grid<T> {
    elements: Vec<T>,
    size: Position,
}

impl<T> Grid<T> {
    /// The values of the grid, in linear index order.
    pub closed spec fn elems(self) -> Seq<T> {
        self.elements@
    }

    /// The extent of the grid.
    pub closed spec fn extent(self) -> Position {
        self.size
    }

    /// A grid holds exactly one value per cell of its extent, and its cell
    /// count fits a `u32`.
    pub open spec fn wf(self) -> bool {
        &&& self.extent().count_fits()
        &&& self.elems().len() == self.extent().count_spec()
    }

    /// The value at a position: `None` when the position lies outside the
    /// grid.
    pub open spec fn get_spec(self, position: Position) -> Option<T> {
        if position.valid_spec(self.extent()) {
            Some(self.elems()[position.index_spec(self.extent())])
        } else {
            None
        }
    }

    /// Create a new grid with the given elements and size. Panics if the number
    /// of elements does not match the size.
    pub fn new(elements: Vec<T>, size: Position) -> (g: Self)
        requires
            size.count_fits(),
            elements.len() == size.count_spec(),
        ensures
            g.wf(),
            g.elems() == elements@,
            g.extent() == size,
    {
        Self { elements, size }
    }

    /// Returns the size of the grid.
    pub fn size(&self) -> (s: Position)
        ensures
            s == self.extent(),
    {
        self.size
    }

    /// Returns a reference to the element at the given position. None if the
    /// position is out of bounds.
    pub fn get(&self, position: Position) -> (r: Option<&T>)
        requires
            self.wf(),
        ensures
            r is Some <==> self.get_spec(position) is Some,
            r matches Some(v) ==> *v == self.get_spec(position)->0,
    {
        if !position.valid(&self.size) {
            return None;
        }
        proof {
            lemma_valid_index_in_range(position, self.size);
        }
        let index = position.index(&self.size);
        Some(&self.elements[index])
    }

    /// Returns a reference to the element at the given index. None if the index
    /// is out of bounds.
    pub fn get_indexed(&self, index: usize) -> (r: Option<&T>)
        ensures
            r is Some <==> index < self.elems().len(),
            r matches Some(v) ==> *v == self.elems()[index as int],
    {
        if index < self.elements.len() {
            Some(&self.elements[index])
        } else {
            None
        }
    }

    /// Sets the element at the given position to the given value. Panics if the
    /// position is out of bounds.
    pub fn set(&mut self, position: Position, value: T)
        requires
            old(self).wf(),
            position.valid_spec(old(self).extent()),
        ensures
            final(self).wf(),
            final(self).extent() == old(self).extent(),
            final(self).elems() == old(self).elems().update(
                position.index_spec(old(self).extent()),
                value,
            ),
    {
        proof {
            lemma_valid_index_in_range(position, self.size);
        }
        let index = position.index(&self.size);
        self.elements.set(index, value);
    }

    /// Returns the values of the grid, in linear index order.
    pub fn iter_values(&self) -> (r: &[T])
        ensures
            r@ == self.elems(),
    {
        self.elements.as_slice()
    }

    /// Returns the values of the grid for in-place changes, in linear index
    /// order.
    pub fn iter_values_mut(&mut self) -> (r: &mut [T])
        ensures
            r@ == old(self).elems(),
            final(r)@ == final(self).elems(),
            final(self).extent() == old(self).extent(),
    {
        self.elements.as_mut_slice()
    }

    /// Returns the position-value pairs of the grid, in linear index order.
    pub fn iter_entries(&self) -> (r: Vec<(Position, &T)>)
        requires
            self.wf(),
            self.extent().decodable() || self.elems().len() == 0,
        ensures
            r.len() == self.elems().len(),
            forall|i: int|
                0 <= i < r.len() ==> {
                    &&& (#[trigger] r@[i]).0 == Position::from_index_spec(i as usize, self.extent())
                    &&& r@[i].1 == self.elems()[i]
                },
    {
        let mut entries: Vec<(Position, &T)> = Vec::new();
        let mut index: usize = 0;
        while index < self.elements.len()
            invariant
                index <= self.elements.len(),
                self.extent().decodable() || self.elems().len() == 0,
                entries.len() == index,
                forall|i: int|
                    0 <= i < index ==> {
                        &&& (#[trigger] entries@[i]).0 == Position::from_index_spec(
                            i as usize,
                            self.extent(),
                        )
                        &&& entries@[i].1 == self.elems()[i]
                    },
            decreases self.elements.len() - index,
        {
            entries.push((Position::from_index(index, &self.size), &self.elements[index]));
            index = index + 1;
        }
        entries
    }

    /// Returns the values of the grid for in-place changes, together with the
    /// position of each, both in linear index order.
    pub fn iter_entries_mut(&mut self) -> (r: (&mut [T], Vec<Position>))
        requires
            old(self).wf(),
            old(self).extent().decodable() || old(self).elems().len() == 0,
        ensures
            r.0@ == old(self).elems(),
            final(r.0)@ == final(self).elems(),
            final(self).extent() == old(self).extent(),
            r.1.len() == old(self).elems().len(),
            forall|i: int|
                0 <= i < r.1.len() ==> #[trigger] r.1@[i] == Position::from_index_spec(
                    i as usize,
                    old(self).extent(),
                ),
    {
        let mut positions: Vec<Position> = Vec::new();
        let mut index: usize = 0;
        let len = self.elements.len();
        while index < len
            invariant
                index <= len,
                len == self.elements.len(),
                self.extent().decodable() || self.elems().len() == 0,
                positions.len() == index,
                forall|i: int|
                    0 <= i < index ==> #[trigger] positions@[i] == Position::from_index_spec(
                        i as usize,
                        self.extent(),
                    ),
            decreases len - index,
        {
            positions.push(Position::from_index(index, &self.size));
            index = index + 1;
        }
        (self.elements.as_mut_slice(), positions)
    }
}

impl<T: Clone> Grid<T> {
    /// Returns a new grid with the given size, filled with the given default
    /// value.
    pub fn new_with_fill(default: T, size: Position) -> (g: Self)
        requires
            size.count_fits(),
        ensures
            g.wf(),
            g.extent() == size,
            forall|i: int| 0 <= i < g.elems().len() ==> cloned(default, #[trigger] g.elems()[i]),
    {
        let elements = vec![default; (size.x() * size.y() * size.z()) as usize];
        Self::new(elements, size)
    }
}

impl<T: Clone> Grid<Option<T>> {
    /// Bulk-unwraps all elements in the grid, returning a new grid with the
    /// unwrapped values. Panics if any element is None.
    pub fn unwrap_all(self) -> (g: Grid<T>)
        requires
            self.wf(),
            forall|i: int| 0 <= i < self.elems().len() ==> (#[trigger] self.elems()[i]) is Some,
        ensures
            g.wf(),
            g.extent() == self.extent(),
            g.elems().len() == self.elems().len(),
            forall|i: int|
                0 <= i < g.elems().len() ==> #[trigger] g.elems()[i] == self.elems()[i]->0,
    {
        let mut source = self.elements;
        let ghost orig = source@;
        // first pass: move the values, last first, into `reversed`
        let mut reversed: Vec<Option<T>> = Vec::new();
        while source.len() > 0
            invariant
                orig == self.elems(),
                reversed.len() + source.len() == orig.len(),
                forall|i: int| 0 <= i < source.len() ==> #[trigger] source@[i] == orig[i],
                forall|i: int|
                    0 <= i < reversed.len() ==> #[trigger] reversed@[i] == orig[orig.len() - 1 - i],
            decreases source.len(),
        {
            let v = source.pop().unwrap();
            reversed.push(v);
        }
        // second pass: unwrap them back into index order
        let mut elements: Vec<T> = Vec::new();
        while reversed.len() > 0
            invariant
                orig == self.elems(),
                forall|i: int| 0 <= i < orig.len() ==> (#[trigger] orig[i]) is Some,
                elements.len() + reversed.len() == orig.len(),
                forall|i: int|
                    0 <= i < elements.len() ==> #[trigger] elements@[i] == orig[i]->0,
                forall|i: int|
                    0 <= i < reversed.len() ==> #[trigger] reversed@[i] == orig[orig.len() - 1 - i],
            decreases reversed.len(),
        {
            let v = reversed.pop().unwrap();
            assert(v == orig[elements.len() as int]);
            elements.push(v.unwrap());
        }
        Grid::new(elements, self.size)
    }
}

/// Reading a grid after setting a cell gives the value set at that cell,
/// and what was there before at every other position.
pub proof fn lemma_get_after_set<T>(before: Grid<T>, after: Grid<T>, position: Position, value: T, other: Position)
    requires
        before.wf(),
        position.valid_spec(before.extent()),
        after.extent() == before.extent(),
        after.elems() == before.elems().update(position.index_spec(before.extent()), value),
    ensures
        after.get_spec(position) == Some(value),
        other != position ==> after.get_spec(other) == before.get_spec(other),
{
    lemma_valid_index_in_range(position, before.extent());
    if other != position && other.valid_spec(before.extent()) {
        lemma_valid_index_in_range(other, before.extent());
        super::position::lemma_index_roundtrip(position, before.extent());
        super::position::lemma_index_roundtrip(other, before.extent());
    }
}

/// A position inside the grid has a linear index below the cell count.
pub proof fn lemma_valid_index_in_range(p: Position, extent: Position)
    requires
        p.valid_spec(extent),
        extent.count_fits(),
    ensures
        p.index_fits(extent),
        p.index_spec(extent) < extent.count_spec(),
{
    let x = p.sx() as int;
    let y = p.sy() as int;
    let z = p.sz() as int;
    let ex = extent.sx() as int;
    let ey = extent.sy() as int;
    let ez = extent.sz() as int;
    assert(x + y * ex + z * ex * ey < ex * ey * ez && y * ex <= x + y * ex + z * ex * ey && z * ex
        <= z * ex * ey) by (nonlinear_arith)
        requires
            0 <= x < ex,
            0 <= y < ey,
            0 <= z < ez,
    ;
}

} // verus!
