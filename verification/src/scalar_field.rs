//! 3D scalar field on a cube of cells with toroidal (wrapping) boundaries.
//!
//! The field stores `size x size x size` values in a flat vector, at index
//! `x * size^2 + y * size + z`. Coordinates wrap around in all three axes,
//! so every integer coordinate names a cell.
use vstd::prelude::*;

verus! {

/// Coordinate `c` wrapped into `0..size`.
pub open spec fn wrap_axis(c: int, size: int) -> int {
    c % size
}

/// The remainder that Rust's `%` gives for a positive divisor: it takes
/// the sign of the dividend.
pub open spec fn truncated_rem(g: int, s: int) -> int {
    if g >= 0 {
        g % s
    } else {
        -((-g) % s)
    }
}

/// Adding the divisor to a truncated remainder and reducing again gives
/// the Euclidean remainder.
proof fn lemma_truncated_rem_wrap(g: int, s: int)
    requires
        s > 0,
    ensures
        -s < truncated_rem(g, s) < s,
        0 < truncated_rem(g, s) + s,
        (truncated_rem(g, s) + s) % s == g % s,
{
    let tr = truncated_rem(g, s);
    vstd::arithmetic::div_mod::lemma_mod_multiples_vanish(1, tr, s);
    assert(s * 1 + tr == tr + s);
    assert((tr + s) % s == tr % s);
    if g >= 0 {
        vstd::arithmetic::div_mod::lemma_mod_twice(g, s);
    }
    if g < 0 {
        let h = -g;
        let q = h / s;
        let m = h % s;
        vstd::arithmetic::div_mod::lemma_fundamental_div_mod(h, s);
        assert(g == (-q) * s + (-m)) by (nonlinear_arith)
            requires
                h == s * q + m,
                g == -h,
        ;
        vstd::arithmetic::div_mod::lemma_mod_multiples_vanish(-q, -m, s);
        assert(g % s == (s * (-q) + (-m)) % s);
        assert(tr == -m);
    }
}

/// A field edge whose cube fits in 64 bits is below 2^22.
proof fn lemma_cube_bound(size: int)
    requires
        0 <= size,
        size * size * size <= 0x1_0000_0000_0000_0000,
    ensures
        size < 0x40_0000,
{
    if size >= 0x40_0000 {
        assert(size * size >= 0x40_0000 * 0x40_0000) by (nonlinear_arith)
            requires
                size >= 0x40_0000,
        ;
        assert(size * size * size >= 0x40_0000 * 0x40_0000 * 0x40_0000) by (nonlinear_arith)
            requires
                size >= 0x40_0000,
                size * size >= 0x40_0000 * 0x40_0000,
        ;
    }
}

/// A cell position built from wrapped coordinates lies inside the cube.
proof fn lemma_index_in_cube(wx: int, wy: int, wz: int, s: int)
    requires
        0 <= wx < s,
        0 <= wy < s,
        0 <= wz < s,
    ensures
        0 <= wx * s * s + wy * s + wz < s * s * s,
        0 <= wx * s <= wx * s * s,
        0 <= wy * s,
{
    assert(0 <= wx * s <= wx * s * s) by (nonlinear_arith)
        requires
            0 <= wx < s,
    ;
    assert(0 <= wx * s * s + wy * s + wz < s * s * s) by (nonlinear_arith)
        requires
            0 <= wx < s,
            0 <= wy < s,
            0 <= wz < s,
    ;
    assert(0 <= wx * s * s && 0 <= wy * s) by (nonlinear_arith)
        requires
            0 <= wx < s,
            0 <= wy < s,
    ;
}

/// A 3D field of values of type `T` with toroidal boundaries.
pub struct ScalarField<T> {
    /// The values in row-major order: index = x * size^2 + y * size + z.
    pub data: Vec<T>,
    /// Resolution per axis (total cells = size^3).
    pub size: usize,
}

impl<T> ScalarField<T> {
    /// The data holds one value per cell.
    pub open spec fn wf(&self) -> bool {
        self.data@.len() == self.size * self.size * self.size
    }

    /// Position in `data` of the cell at (possibly out-of-range) coordinates.
    pub open spec fn cell_index(&self, x: int, y: int, z: int) -> int {
        let s = self.size as int;
        wrap_axis(x, s) * s * s + wrap_axis(y, s) * s + wrap_axis(z, s)
    }
}

impl<T: Copy> ScalarField<T> {
    /// Create a new field of edge `size` with every cell set to `fill`.
    pub fn new(size: usize, fill: T) -> (r: Self)
        requires
            size * size * size <= usize::MAX,
        ensures
            r.wf(),
            r.size == size,
            forall|i: int| 0 <= i < r.data@.len() ==> #[trigger] r.data@[i] == fill,
    {
        proof {
            assert(size * size <= size * size * size || size == 0) by (nonlinear_arith);
        }
        let total = size * size * size;
        let mut data: Vec<T> = Vec::with_capacity(total);
        let mut i: usize = 0;
        while i < total
            invariant
                i <= total,
                data@.len() == i,
                forall|j: int| 0 <= j < i ==> #[trigger] data@[j] == fill,
            decreases total - i,
        {
            data.push(fill);
            i = i + 1;
        }
        ScalarField { data, size }
    }

    /// Wrap a grid coordinate into `0..size`.
    pub fn wrap_coord(&self, g: i32) -> (r: i32)
        requires
            self.wf(),
            self.size > 0,
        ensures
            r as int == wrap_axis(g as int, self.size as int),
            0 <= r < self.size,
    {
        proof {
            assert(self.data.len() == self.data@.len());
            lemma_cube_bound(self.size as int);
            lemma_truncated_rem_wrap(g as int, self.size as int);
        }
        let s = self.size as i32;
        let m = g % s;
        assert(m as int == truncated_rem(g as int, s as int));
        (m + s) % s
    }

    /// Convert (x, y, z) grid coordinates to a flat array index.
    fn idx(&self, x: i32, y: i32, z: i32) -> (r: usize)
        requires
            self.wf(),
            self.size > 0,
        ensures
            r as int == self.cell_index(x as int, y as int, z as int),
            r < self.data@.len(),
    {
        let wx = self.wrap_coord(x);
        let wy = self.wrap_coord(y);
        let wz = self.wrap_coord(z);
        proof {
            assert(self.data.len() == self.data@.len());
            lemma_index_in_cube(wx as int, wy as int, wz as int, self.size as int);
        }
        (wx as usize) * self.size * self.size + (wy as usize) * self.size + (wz as usize)
    }

    /// Get the value at grid coordinates (x, y, z). Coordinates wrap toroidally.
    pub fn get(&self, x: i32, y: i32, z: i32) -> (r: T)
        requires
            self.wf(),
            self.size > 0,
        ensures
            r == self.data@[self.cell_index(x as int, y as int, z as int)],
    {
        self.data[self.idx(x, y, z)]
    }

    /// Set the value at grid coordinates (x, y, z). Coordinates wrap toroidally.
    pub fn set(&mut self, x: i32, y: i32, z: i32, v: T)
        requires
            old(self).wf(),
            old(self).size > 0,
        ensures
            final(self).wf(),
            final(self).size == old(self).size,
            final(self).data@ == old(self).data@.update(
                old(self).cell_index(x as int, y as int, z as int),
                v,
            ),
    {
        let i = self.idx(x, y, z);
        self.data[i] = v;
    }
}

/// Coordinates that differ by a multiple of the edge name the same cell:
/// the field wraps around in every axis.
pub proof fn lemma_coordinates_wrap<T>(f: &ScalarField<T>, x: int, y: int, z: int, kx: int, ky: int, kz: int)
    requires
        f.size > 0,
    ensures
        f.cell_index(x + kx * f.size, y + ky * f.size, z + kz * f.size) == f.cell_index(x, y, z),
{
    let s = f.size as int;
    vstd::arithmetic::div_mod::lemma_mod_multiples_vanish(kx, x, s);
    vstd::arithmetic::div_mod::lemma_mod_multiples_vanish(ky, y, s);
    vstd::arithmetic::div_mod::lemma_mod_multiples_vanish(kz, z, s);
    assert(s * kx + x == x + kx * s) by (nonlinear_arith);
    assert(s * ky + y == y + ky * s) by (nonlinear_arith);
    assert(s * kz + z == z + kz * s) by (nonlinear_arith);
}

/// Two coordinate triples name the same cell exactly when they agree
/// after wrapping, and every cell index lies inside the data.
pub proof fn lemma_cell_index_identifies_cell<T>(f: &ScalarField<T>, x: int, y: int, z: int, u: int, v: int, w: int)
    requires
        f.wf(),
        f.size > 0,
    ensures
        0 <= f.cell_index(x, y, z) < f.data@.len(),
        f.cell_index(x, y, z) == f.cell_index(u, v, w) <==> (wrap_axis(x, f.size as int) == wrap_axis(
            u,
            f.size as int,
        ) && wrap_axis(y, f.size as int) == wrap_axis(v, f.size as int) && wrap_axis(z, f.size as int)
            == wrap_axis(w, f.size as int)),
{
    let s = f.size as int;
    lemma_decompose(wrap_axis(x, s), wrap_axis(y, s), wrap_axis(z, s), s);
    lemma_decompose(wrap_axis(u, s), wrap_axis(v, s), wrap_axis(w, s), s);
    lemma_index_in_cube(wrap_axis(x, s), wrap_axis(y, s), wrap_axis(z, s), s);
}

/// A cell index determines its three wrapped coordinates.
proof fn lemma_decompose(a: int, b: int, c: int, s: int)
    requires
        0 <= a < s,
        0 <= b < s,
        0 <= c < s,
    ensures
        (a * s * s + b * s + c) % s == c,
        ((a * s * s + b * s + c) / s) % s == b,
        ((a * s * s + b * s + c) / s) / s == a,
{
    let n = a * s * s + b * s + c;
    assert(a * s * s + b * s + c == (a * s + b) * s + c) by (nonlinear_arith);
    vstd::arithmetic::div_mod::lemma_fundamental_div_mod_converse(n, s, a * s + b, c);
    vstd::arithmetic::div_mod::lemma_fundamental_div_mod_converse(a * s + b, s, a, b);
}

/// Reading a cell after writing one gives the written value when both name
/// the same cell, and the previous value otherwise.
pub proof fn lemma_set_then_get<T>(f: &ScalarField<T>, x: int, y: int, z: int, u: int, v: int, w: int, val: T)
    requires
        f.wf(),
        f.size > 0,
    ensures
        f.data@.update(f.cell_index(x, y, z), val)[f.cell_index(u, v, w)] == (if wrap_axis(
            x,
            f.size as int,
        ) == wrap_axis(u, f.size as int) && wrap_axis(y, f.size as int) == wrap_axis(v, f.size as int)
            && wrap_axis(z, f.size as int) == wrap_axis(w, f.size as int) {
            val
        } else {
            f.data@[f.cell_index(u, v, w)]
        }),
{
    lemma_cell_index_identifies_cell(f, x, y, z, u, v, w);
    lemma_cell_index_identifies_cell(f, u, v, w, x, y, z);
}

} // verus!
