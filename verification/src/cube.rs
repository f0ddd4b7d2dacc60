use vstd::prelude::*;

verus! {

/// The 4-dimensional memory of the interpreter: a hypercube of byte cells
/// with the same length along every axis, stored as an `ndarray` array.
///
/// Verus cannot read `ndarray`'s types, so the struct is opaque to the
/// verifier and everything it knows about a `Cube` is said by the contracts
/// of the functions below, over the two names `cells` and `side`.
#[verifier::external_body]
pub struct Cube {
    arr: ndarray::Array4<u8>,
}

/// The bytes the cube holds, one for each coordinate quadruple.
pub uninterp spec fn cells(c: Cube) -> Map<(int, int, int, int), u8>;

/// The side length the cube was created with.
pub uninterp spec fn side(c: Cube) -> nat;

/// Whether a coordinate quadruple lies inside a cube of side `count`.
pub open spec fn in_bounds(x: int, y: int, z: int, w: int, count: nat) -> bool {
    0 <= x < count && 0 <= y < count && 0 <= z < count && 0 <= w < count
}

impl Cube {
    /// Relies on ndarray's `ArrayBase::zeros`: a freshly allocated array of
    /// shape `count^4` with every element zero. `zeros` panics when the
    /// product of the axis lengths overflows `isize`, so that product is
    /// required to fit.
    #[verifier::external_body]
    pub fn zeros(count: usize) -> (r: Cube)
        requires
            count * count * count * count <= isize::MAX,
        ensures
            side(r) == count,
            cells(r) == Map::new(
                |k: (int, int, int, int)| in_bounds(k.0, k.1, k.2, k.3, count as nat),
                |k: (int, int, int, int)| 0u8,
            ),
    {
        Cube { arr: ndarray::Array::<u8, ndarray::Ix4>::zeros((count, count, count, count)) }
    }

    /// Relies on ndarray's `Index` impl for `ArrayBase`: returns the element
    /// at the given coordinates. It panics on an out-of-bounds index, so the
    /// coordinates are required to lie inside the cube.
    #[verifier::external_body]
    pub fn get(&self, x: usize, y: usize, z: usize, w: usize) -> (r: u8)
        requires
            in_bounds(x as int, y as int, z as int, w as int, side(*self)),
        ensures
            r == cells(*self)[(x as int, y as int, z as int, w as int)],
    {
        self.arr[[x, y, z, w]]
    }

    /// Relies on ndarray's `IndexMut` impl for `ArrayBase`: replaces the
    /// element at the given coordinates and touches no other element. It
    /// panics on an out-of-bounds index, so the coordinates are required to
    /// lie inside the cube.
    #[verifier::external_body]
    pub fn set(&mut self, x: usize, y: usize, z: usize, w: usize, v: u8)
        requires
            in_bounds(x as int, y as int, z as int, w as int, side(*old(self))),
        ensures
            side(*final(self)) == side(*old(self)),
            cells(*final(self)) == cells(*old(self)).insert(
                (x as int, y as int, z as int, w as int),
                v,
            ),
    {
        self.arr[[x, y, z, w]] = v;
    }

    /// Relies on ndarray's `iter`: it yields every element of the array.
    /// The run of `all` over it reports whether each one is zero.
    #[verifier::external_body]
    pub fn all_cells_zero(&self) -> (r: bool)
        ensures
            r == (forall|x: int, y: int, z: int, w: int|
                in_bounds(x, y, z, w, side(*self))
                    ==> #[trigger] cells(*self)[(x, y, z, w)] == 0u8),
    {
        self.arr.iter().all(|b| byte_is_zero(b))
    }
}

/// Whether one byte is zero.
pub fn byte_is_zero(b: &u8) -> (r: bool)
    ensures
        r == (*b == 0u8),
{
    *b == 0
}

} // verus!
