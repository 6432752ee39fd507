use vstd::prelude::*;

verus! {

/// An integer triple: a lattice cell, or the low/high choice per axis of an octant.
#[derive(Debug, PartialEq, Eq, Structural, Hash, Clone, Copy)]
pub struct Coord {
    x: i32,
    y: i32,
    z: i32,
}

impl Coord {
    pub closed spec fn spec_x(&self) -> i32 {
        self.x
    }

    pub closed spec fn spec_y(&self) -> i32 {
        self.y
    }

    pub closed spec fn spec_z(&self) -> i32 {
        self.z
    }

    pub fn new(x: i32, y: i32, z: i32) -> (c: Coord)
        ensures
            c.spec_x() == x,
            c.spec_y() == y,
            c.spec_z() == z,
    {
        Coord { x: x, y: y, z: z }
    }

    /// The octant numbered `i`: bit 0 of `i` picks the upper half along x,
    /// bit 1 along y, bit 2 along z (1 for the upper half, 0 for the lower).
    pub fn octant(i: u8) -> (c: Coord)
        requires
            i < 8,
        ensures
            c.spec_x() == i % 2,
            c.spec_y() == (i / 2) % 2,
            c.spec_z() == i / 4,
    {
        assert((i & 1) == i % 2 && ((i >> 1) & 1) == (i / 2) % 2 && ((i >> 2) & 1) == i / 4)
            by (bit_vector)
            requires
                i < 8,
        ;
        Coord::new((i & 1) as i32, ((i >> 1) & 1) as i32, ((i >> 2) & 1) as i32)
    }

    pub fn x(&self) -> (r: i32)
        ensures
            r == self.spec_x(),
    {
        self.x
    }

    pub fn y(&self) -> (r: i32)
        ensures
            r == self.spec_y(),
    {
        self.y
    }

    pub fn z(&self) -> (r: i32)
        ensures
            r == self.spec_z(),
    {
        self.z
    }
}

/// Coords with equal components are equal.
pub proof fn lemma_coord_eq(a: Coord, b: Coord)
    requires
        a.spec_x() == b.spec_x(),
        a.spec_y() == b.spec_y(),
        a.spec_z() == b.spec_z(),
    ensures
        a == b,
{
}

/// Distinct octant numbers name distinct octants, so the eight children of
/// a node cover eight different parts of its region.
pub proof fn lemma_octants_distinct(i: u8, j: u8)
    requires
        i < 8,
        j < 8,
        i != j,
    ensures
        i % 2 != j % 2 || (i / 2) % 2 != (j / 2) % 2 || i / 4 != j / 4,
{
}

} // verus!
