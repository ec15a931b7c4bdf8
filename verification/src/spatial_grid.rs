//! Spatial hash grid for neighbour queries in 3D.
//!
//! Cells are addressed by integer cell coordinates. Each axis is reduced
//! modulo 1024 (10 bits) and the three reductions are packed into one
//! 30-bit key: bits 29..20 hold x, bits 19..10 hold y, bits 9..0 hold z.
//! A query collects the particles of the 3x3x3 block of cells around a
//! cell, which wraps around at the 1024-cell boundary of each axis.
use std::collections::HashMap;
use vstd::prelude::*;

verus! {

/// Number of distinct cells per axis.
pub const AXIS_CELLS: u32 = 1024;

/// A cell coordinate reduced to its 10-bit axis key.
pub open spec fn axis_key(c: int) -> int {
    c % 1024
}

/// The packed key of the cell with coordinates `(cx, cy, cz)`.
pub open spec fn cell_key(cx: int, cy: int, cz: int) -> u32 {
    (axis_key(cx) * 0x10_0000 + axis_key(cy) * 0x400 + axis_key(cz)) as u32
}

/// The three axis keys packed in `key`.
pub open spec fn unpacked(key: u32) -> (int, int, int) {
    ((key as int / 0x10_0000) % 1024, (key as int / 0x400) % 1024, key as int % 1024)
}

/// Keys of the 27 cells around `(cx, cy, cz)`, x-offset outermost and
/// z-offset innermost, each offset running -1, 0, 1.
pub open spec fn neighbor_keys(cx: int, cy: int, cz: int) -> Seq<u32> {
    Seq::new(27, |n: int| cell_key(cx + n / 9 - 1, cy + (n / 3) % 3 - 1, cz + n % 3 - 1))
}

/// Masking a coordinate to 10 bits is reduction modulo 1024.
proof fn lemma_mask_axis(c: i32)
    ensures
        ((c as u32) & 0x3FFu32) as int == axis_key(c as int),
        ((c as u32) & 0x3FFu32) < 1024,
{
    let u = c as u32;
    assert(u & 0x3FFu32 == u % 1024) by (bit_vector);
    assert(u & 0x3FFu32 < 1024) by (bit_vector);
    if c >= 0 {
        assert(u as int == c as int);
    } else {
        assert(c < 0 ==> (c as u32) as int == c as int + 0x1_0000_0000) by (bit_vector);
        vstd::arithmetic::div_mod::lemma_mod_multiples_vanish(0x40_0000, c as int, 1024);
        assert(0x40_0000 * 1024 == 0x1_0000_0000);
    }
}

/// Packing three 10-bit values with shifts and ors is positional arithmetic.
proof fn lemma_pack_bits(a: u32, b: u32, c: u32)
    requires
        a < 1024,
        b < 1024,
        c < 1024,
    ensures
        ((a << 20u32) | (b << 10u32) | c) as int == a * 0x10_0000 + b * 0x400 + c,
{
    assert(((a << 20u32) | (b << 10u32) | c) == a * 0x10_0000 + b * 0x400 + c) by (bit_vector)
        requires
            a < 1024,
            b < 1024,
            c < 1024,
    ;
}

/// Compute the packed key of a cell from its coordinates.
fn pack_key(cx: i32, cy: i32, cz: i32) -> (k: u32)
    ensures
        k == cell_key(cx as int, cy as int, cz as int),
        k < 0x4000_0000,
{
    proof {
        lemma_mask_axis(cx);
        lemma_mask_axis(cy);
        lemma_mask_axis(cz);
        lemma_pack_bits(
            (cx as u32) & 0x3FFu32,
            (cy as u32) & 0x3FFu32,
            (cz as u32) & 0x3FFu32,
        );
    }
    (((cx as u32) & 0x3FF) << 20) | (((cy as u32) & 0x3FF) << 10) | ((cz as u32) & 0x3FF)
}

/// Decompose a packed key back into its three 10-bit cell coordinates.
fn unpack_key(key: u32) -> (r: (i32, i32, i32))
    ensures
        (r.0 as int, r.1 as int, r.2 as int) == unpacked(key),
        0 <= r.0 < 1024,
        0 <= r.1 < 1024,
        0 <= r.2 < 1024,
{
    proof {
        assert((key >> 20u32) & 0x3FFu32 == (key / 0x10_0000) % 1024) by (bit_vector);
        assert((key >> 10u32) & 0x3FFu32 == (key / 0x400) % 1024) by (bit_vector);
        assert(key & 0x3FFu32 == key % 1024) by (bit_vector);
    }
    let x = ((key >> 20) & 0x3FF) as i32;
    let y = ((key >> 10) & 0x3FF) as i32;
    let z = (key & 0x3FF) as i32;
    (x, y, z)
}

/// Unpacking a cell key gives back the coordinates reduced modulo 1024,
/// and keys lie below 2^30.
pub proof fn lemma_unpack_cell_key(cx: int, cy: int, cz: int)
    ensures
        unpacked(cell_key(cx, cy, cz)) == (axis_key(cx), axis_key(cy), axis_key(cz)),
        cell_key(cx, cy, cz) < 0x4000_0000,
{
    let a = axis_key(cx);
    let b = axis_key(cy);
    let c = axis_key(cz);
    let k = a * 0x10_0000 + b * 0x400 + c;
    assert(0 <= k < 0x4000_0000) by (nonlinear_arith)
        requires
            0 <= a < 1024,
            0 <= b < 1024,
            0 <= c < 1024,
            k == a * 0x10_0000 + b * 0x400 + c,
    ;
    assert(k / 0x10_0000 == a && (k / 0x400) % 1024 == b && k % 1024 == c) by (nonlinear_arith)
        requires
            0 <= a < 1024,
            0 <= b < 1024,
            0 <= c < 1024,
            k == a * 0x10_0000 + b * 0x400 + c,
    ;
}

/// Two cells share a key exactly when their coordinates agree modulo 1024.
pub proof fn lemma_cell_key_injective(ax: int, ay: int, az: int, bx: int, by: int, bz: int)
    ensures
        cell_key(ax, ay, az) == cell_key(bx, by, bz) <==> (axis_key(ax) == axis_key(bx) && axis_key(ay)
            == axis_key(by) && axis_key(az) == axis_key(bz)),
{
    lemma_unpack_cell_key(ax, ay, az);
    lemma_unpack_cell_key(bx, by, bz);
}

/// Shifting a coordinate that was already reduced gives the same axis key
/// as shifting the unreduced coordinate.
proof fn lemma_axis_key_shift(c: int, d: int)
    ensures
        axis_key(axis_key(c) + d) == axis_key(c + d),
{
    vstd::arithmetic::div_mod::lemma_add_mod_noop(c, d, 1024);
    vstd::arithmetic::div_mod::lemma_mod_twice(c, 1024);
    vstd::arithmetic::div_mod::lemma_add_mod_noop(c % 1024, d, 1024);
}

/// Spatial hash grid: a map from packed cell key to the particle indices
/// inserted into that cell, in insertion order.
pub struct SpatialGrid {
    /// Map from packed cell key to the list of particle indices in that cell.
    cells: HashMap<u32, Vec<usize>>,
}

impl View for SpatialGrid {
    type V = Map<u32, Seq<usize>>;

    /// The buckets that have been created, by key.
    closed spec fn view(&self) -> Map<u32, Seq<usize>> {
        self.cells@.map_values(|b: Vec<usize>| b@)
    }
}

impl SpatialGrid {
    /// The particle indices in the cell with key `k` (empty when the cell
    /// has no bucket).
    pub open spec fn bucket(&self, k: u32) -> Seq<usize> {
        if self@.contains_key(k) {
            self@[k]
        } else {
            Seq::empty()
        }
    }

    /// The concatenation of the buckets of `keys`, in order.
    pub open spec fn gather(&self, keys: Seq<u32>) -> Seq<usize>
        decreases keys.len(),
    {
        if keys.len() == 0 {
            Seq::empty()
        } else {
            self.gather(keys.drop_last()) + self.bucket(keys.last())
        }
    }

    /// Create a new, empty spatial grid.
    pub fn new() -> (r: Self)
        ensures
            forall|k: u32| #[trigger] r.bucket(k) == Seq::<usize>::empty(),
    {
        let r = SpatialGrid { cells: HashMap::new() };
        proof {
            assert(r@ =~= Map::<u32, Seq<usize>>::empty());
        }
        r
    }

    /// Remove all particles from the grid.
    pub fn clear(&mut self)
        ensures
            forall|k: u32| #[trigger] final(self).bucket(k) == Seq::<usize>::empty(),
    {
        self.cells.clear();
        proof {
            assert(self@ =~= Map::<u32, Seq<usize>>::empty());
        }
    }

    /// Insert a particle (by index) into the cell with coordinates
    /// `(cx, cy, cz)`; it goes at the end of that cell's bucket.
    pub fn insert(&mut self, idx: usize, cx: i32, cy: i32, cz: i32)
        ensures
            final(self).bucket(cell_key(cx as int, cy as int, cz as int)) == old(self).bucket(
                cell_key(cx as int, cy as int, cz as int),
            ).push(idx),
            forall|k: u32|
                k != cell_key(cx as int, cy as int, cz as int) ==> #[trigger] final(self).bucket(k)
                    == old(self).bucket(k),
    {
        let k = pack_key(cx, cy, cz);
        let ghost pre = self@;
        let mut b = match self.cells.remove(&k) {
            Some(b) => b,
            None => Vec::with_capacity(8),
        };
        proof {
            assert(b@ == (if pre.contains_key(k) { pre[k] } else { Seq::<usize>::empty() }));
        }
        b.push(idx);
        self.cells.insert(k, b);
        proof {
            assert(self@ =~= pre.insert(k, if pre.contains_key(k) { pre[k] } else { Seq::<usize>::empty() }.push(idx)));
        }
    }

    /// Query all particle indices in the 27 neighbouring cells (3x3x3 cube)
    /// centred on the cell `(cx, cy, cz)`.
    pub fn query(&self, cx: i32, cy: i32, cz: i32) -> (r: Vec<usize>)
        ensures
            r@ == self.gather(neighbor_keys(cx as int, cy as int, cz as int)),
    {
        let mut out: Vec<usize> = Vec::new();
        self.query_into(cx, cy, cz, &mut out);
        out
    }

    /// Query all particle indices in the 27 neighbouring cells, writing the
    /// results into `out` (which is cleared first).
    pub fn query_into(&self, cx: i32, cy: i32, cz: i32, out: &mut Vec<usize>)
        ensures
            final(out)@ == self.gather(neighbor_keys(cx as int, cy as int, cz as int)),
    {
        out.clear();
        let k = pack_key(cx, cy, cz);
        let (ux, uy, uz) = unpack_key(k);
        let ghost keys = neighbor_keys(cx as int, cy as int, cz as int);
        proof {
            lemma_unpack_cell_key(cx as int, cy as int, cz as int);
        }
        let mut n: i32 = 0;
        while n < 27
            invariant
                0 <= n <= 27,
                0 <= ux < 1024,
                0 <= uy < 1024,
                0 <= uz < 1024,
                ux as int == axis_key(cx as int),
                uy as int == axis_key(cy as int),
                uz as int == axis_key(cz as int),
                keys == neighbor_keys(cx as int, cy as int, cz as int),
                out@ == self.gather(keys.take(n as int)),
            decreases 27 - n,
        {
            let dx = n / 9 - 1;
            let dy = (n / 3) % 3 - 1;
            let dz = n % 3 - 1;
            let nk = pack_key(ux + dx, uy + dy, uz + dz);
            proof {
                lemma_axis_key_shift(cx as int, dx as int);
                lemma_axis_key_shift(cy as int, dy as int);
                lemma_axis_key_shift(cz as int, dz as int);
                assert(nk == keys[n as int]);
                assert(keys.take(n + 1).drop_last() =~= keys.take(n as int));
            }
            match self.cells.get(&nk) {
                Some(bucket) => {
                    let mut j: usize = 0;
                    let ghost before = out@;
                    while j < bucket.len()
                        invariant
                            j <= bucket@.len(),
                            out@ == before + bucket@.take(j as int),
                        decreases bucket@.len() - j,
                    {
                        out.push(bucket[j]);
                        proof {
                            assert(bucket@.take(j + 1) =~= bucket@.take(j as int).push(bucket@[j as int]));
                        }
                        j = j + 1;
                    }
                    proof {
                        assert(bucket@.take(bucket@.len() as int) =~= bucket@);
                        assert(self.bucket(nk) == bucket@);
                    }
                },
                None => {
                    proof {
                        assert(self.bucket(nk) =~= Seq::<usize>::empty());
                        assert(out@ + self.bucket(nk) =~= out@);
                    }
                },
            }
            n = n + 1;
        }
        proof {
            assert(keys.take(27) =~= keys);
        }
    }
}

/// Every entry of the bucket of `keys[n]` appears in the gathered buckets.
proof fn lemma_gather_contains(grid: &SpatialGrid, keys: Seq<u32>, n: int, j: int)
    requires
        0 <= n < keys.len(),
        0 <= j < grid.bucket(keys[n]).len(),
    ensures
        grid.gather(keys).contains(grid.bucket(keys[n])[j]),
    decreases keys.len(),
{
    let prev = keys.drop_last();
    let g = grid.gather(keys);
    if n == keys.len() - 1 {
        let off = grid.gather(prev).len() as int;
        assert(g[off + j] == grid.bucket(keys[n])[j]);
    } else {
        assert(prev[n] == keys[n]);
        lemma_gather_contains(grid, prev, n, j);
        let i = choose|i: int| 0 <= i < grid.gather(prev).len() && grid.gather(prev)[i] == grid.bucket(keys[n])[j];
        assert(g[i] == grid.bucket(keys[n])[j]);
    }
}

/// A query around cell `q` returns every particle inserted into any cell
/// `p` that is at most one cell away from `q` along each axis.
pub proof fn lemma_query_finds_neighbors(
    grid: &SpatialGrid,
    px: int,
    py: int,
    pz: int,
    qx: int,
    qy: int,
    qz: int,
    j: int,
)
    requires
        -1 <= px - qx <= 1,
        -1 <= py - qy <= 1,
        -1 <= pz - qz <= 1,
        0 <= j < grid.bucket(cell_key(px, py, pz)).len(),
    ensures
        grid.gather(neighbor_keys(qx, qy, qz)).contains(grid.bucket(cell_key(px, py, pz))[j]),
{
    let n = (px - qx + 1) * 9 + (py - qy + 1) * 3 + (pz - qz + 1);
    let keys = neighbor_keys(qx, qy, qz);
    assert(n / 9 == px - qx + 1 && (n / 3) % 3 == py - qy + 1 && n % 3 == pz - qz + 1);
    assert(keys[n] == cell_key(px, py, pz));
    lemma_gather_contains(grid, keys, n, j);
}

/// What a run of inserts `ops` put into the cell with key `k`, in order.
/// Each entry of `ops` is `(idx, cx, cy, cz)`: particle `idx` inserted into
/// the cell with coordinates `(cx, cy, cz)`.
pub open spec fn bucket_after(ops: Seq<(usize, int, int, int)>, k: u32) -> Seq<usize>
    decreases ops.len(),
{
    if ops.len() == 0 {
        Seq::empty()
    } else {
        let op = ops.last();
        let before = bucket_after(ops.drop_last(), k);
        if cell_key(op.1, op.2, op.3) == k {
            before.push(op.0)
        } else {
            before
        }
    }
}

/// Whether coordinate `a` lies within one cell of `b` on an axis that wraps
/// every 1024 cells.
pub open spec fn axis_near(a: int, b: int) -> bool {
    let d = axis_key(a - b);
    d == 0 || d == 1 || d == 1023
}

/// The indices that the run `ops` inserted into cells within one cell of
/// `(qx, qy, qz)` along every axis, in insertion order.
pub open spec fn near_indices(ops: Seq<(usize, int, int, int)>, qx: int, qy: int, qz: int) -> Seq<
    usize,
>
    decreases ops.len(),
{
    if ops.len() == 0 {
        Seq::empty()
    } else {
        let op = ops.last();
        let before = near_indices(ops.drop_last(), qx, qy, qz);
        if axis_near(op.1, qx) && axis_near(op.2, qy) && axis_near(op.3, qz) {
            before.push(op.0)
        } else {
            before
        }
    }
}

/// The concatenation, over `keys` in order, of what the run `ops` put into
/// each cell.
spec fn gather_after(ops: Seq<(usize, int, int, int)>, keys: Seq<u32>) -> Seq<usize>
    decreases keys.len(),
{
    if keys.len() == 0 {
        Seq::empty()
    } else {
        gather_after(ops, keys.drop_last()) + bucket_after(ops, keys.last())
    }
}

/// A fresh or cleared grid holds exactly what the empty run of inserts put
/// into it: nothing.
pub proof fn lemma_empty_grid_run(grid: &SpatialGrid)
    requires
        forall|k: u32| #[trigger] grid.bucket(k) == Seq::<usize>::empty(),
    ensures
        forall|k: u32|
            #[trigger] grid.bucket(k) == bucket_after(Seq::<(usize, int, int, int)>::empty(), k),
{
}

/// If a grid holds what the run `ops` put into it, then after `insert(idx,
/// cx, cy, cz)` it holds what the run extended by that insert puts into it.
pub proof fn lemma_insert_extends_run(
    before: &SpatialGrid,
    after: &SpatialGrid,
    ops: Seq<(usize, int, int, int)>,
    idx: usize,
    cx: i32,
    cy: i32,
    cz: i32,
)
    requires
        forall|k: u32| #[trigger] before.bucket(k) == bucket_after(ops, k),
        after.bucket(cell_key(cx as int, cy as int, cz as int)) == before.bucket(
            cell_key(cx as int, cy as int, cz as int),
        ).push(idx),
        forall|k: u32|
            k != cell_key(cx as int, cy as int, cz as int) ==> #[trigger] after.bucket(k)
                == before.bucket(k),
    ensures
        forall|k: u32|
            #[trigger] after.bucket(k) == bucket_after(
                ops.push((idx, cx as int, cy as int, cz as int)),
                k,
            ),
{
    let run = ops.push((idx, cx as int, cy as int, cz as int));
    assert(run.drop_last() =~= ops);
    assert forall|k: u32| #[trigger] after.bucket(k) == bucket_after(run, k) by {
        assert(before.bucket(k) == bucket_after(ops, k));
    }
}

/// Gathering the grid's buckets is gathering what the run put in them.
proof fn lemma_gather_follows_run(
    grid: &SpatialGrid,
    ops: Seq<(usize, int, int, int)>,
    keys: Seq<u32>,
)
    requires
        forall|k: u32| #[trigger] grid.bucket(k) == bucket_after(ops, k),
    ensures
        grid.gather(keys) == gather_after(ops, keys),
    decreases keys.len(),
{
    if keys.len() > 0 {
        lemma_gather_follows_run(grid, ops, keys.drop_last());
        assert(grid.bucket(keys.last()) == bucket_after(ops, keys.last()));
    }
}

/// The empty run gathers nothing.
proof fn lemma_gather_empty_run(keys: Seq<u32>)
    ensures
        gather_after(Seq::<(usize, int, int, int)>::empty(), keys) == Seq::<usize>::empty(),
    decreases keys.len(),
{
    if keys.len() > 0 {
        lemma_gather_empty_run(keys.drop_last());
        assert(gather_after(Seq::<(usize, int, int, int)>::empty(), keys) =~= Seq::<usize>::empty());
    }
}

/// One more insert adds its index once to the gathered multiset when its
/// cell is among `keys` (which holds no key twice), and nothing otherwise.
proof fn lemma_gather_after_push(
    ops: Seq<(usize, int, int, int)>,
    op: (usize, int, int, int),
    keys: Seq<u32>,
)
    requires
        keys.no_duplicates(),
    ensures
        gather_after(ops.push(op), keys).to_multiset() == (if keys.contains(
            cell_key(op.1, op.2, op.3),
        ) {
            gather_after(ops, keys).to_multiset().insert(op.0)
        } else {
            gather_after(ops, keys).to_multiset()
        }),
    decreases keys.len(),
{
    broadcast use vstd::seq_lib::group_to_multiset_ensures;

    let run = ops.push(op);
    let kop = cell_key(op.1, op.2, op.3);
    assert(run.drop_last() =~= ops);
    if keys.len() > 0 {
        let rest = keys.drop_last();
        let last = keys.last();
        assert(rest.no_duplicates());
        lemma_gather_after_push(ops, op, rest);
        let g_old = gather_after(ops, rest);
        let g_new = gather_after(run, rest);
        let b_old = bucket_after(ops, last);
        let b_new = bucket_after(run, last);
        vstd::seq_lib::lemma_multiset_commutative(g_old, b_old);
        vstd::seq_lib::lemma_multiset_commutative(g_new, b_new);
        assert(keys =~= rest.push(last));
        if last == kop {
            assert(!rest.contains(kop)) by {
                if rest.contains(kop) {
                    let i = choose|i: int| 0 <= i < rest.len() && rest[i] == kop;
                    assert(keys[i] == keys[keys.len() - 1]);
                }
            }
            assert(keys.contains(kop)) by {
                assert(keys[keys.len() - 1] == kop);
            }
            assert(gather_after(run, keys).to_multiset() =~= gather_after(
                ops,
                keys,
            ).to_multiset().insert(op.0));
        } else {
            assert(keys.contains(kop) <==> rest.contains(kop)) by {
                if keys.contains(kop) {
                    let i = choose|i: int| 0 <= i < keys.len() && keys[i] == kop;
                    assert(rest[i] == kop);
                }
                if rest.contains(kop) {
                    let i = choose|i: int| 0 <= i < rest.len() && rest[i] == kop;
                    assert(keys[i] == kop);
                }
            }
            if rest.contains(kop) {
                assert(gather_after(run, keys).to_multiset() =~= gather_after(
                    ops,
                    keys,
                ).to_multiset().insert(op.0));
            } else {
                assert(gather_after(run, keys).to_multiset() =~= gather_after(
                    ops,
                    keys,
                ).to_multiset());
            }
        }
    }
}

/// Two coordinates share an axis key exactly when their offsets from `q` do.
proof fn lemma_axis_offset(c: int, q: int, d: int)
    ensures
        axis_key(c) == axis_key(q + d) <==> axis_key(c - q) == axis_key(d),
{
    vstd::arithmetic::div_mod::lemma_mod_equivalence(c, q + d, 1024);
    vstd::arithmetic::div_mod::lemma_mod_equivalence(c - q, d, 1024);
    assert(c - (q + d) == (c - q) - d);
}

/// The x-offset, -1, 0 or 1, of the `n`-th neighbour key.
spec fn offset_x(n: int) -> int {
    n / 9 - 1
}

/// The y-offset, -1, 0 or 1, of the `n`-th neighbour key.
spec fn offset_y(n: int) -> int {
    (n / 3) % 3 - 1
}

/// The z-offset, -1, 0 or 1, of the `n`-th neighbour key.
spec fn offset_z(n: int) -> int {
    n % 3 - 1
}

/// Each index below 27 is recovered from its three offsets.
proof fn lemma_offsets_recompose(n: int)
    requires
        0 <= n < 27,
    ensures
        n == (offset_x(n) + 1) * 9 + (offset_y(n) + 1) * 3 + offset_z(n) + 1,
        -1 <= offset_x(n) <= 1,
        -1 <= offset_y(n) <= 1,
        -1 <= offset_z(n) <= 1,
{
}

/// The axis keys of the offsets -1, 0 and 1 are distinct.
proof fn lemma_offset_keys(d: int, e: int)
    requires
        -1 <= d <= 1,
        -1 <= e <= 1,
    ensures
        axis_key(d) == axis_key(e) <==> d == e,
        axis_key(d) == (if d == -1 { 1023 } else { d }),
{
    assert((-1int) % 1024 == 1023);
}

/// The `n`-th neighbour key is the key of the cell at the `n`-th offsets.
proof fn lemma_neighbor_key_at(qx: int, qy: int, qz: int, n: int)
    requires
        0 <= n < 27,
    ensures
        neighbor_keys(qx, qy, qz).len() == 27,
        neighbor_keys(qx, qy, qz)[n] == cell_key(qx + offset_x(n), qy + offset_y(n), qz + offset_z(n)),
{
}

/// Two different neighbour keys of one centre are different keys.
proof fn lemma_neighbor_keys_distinct(qx: int, qy: int, qz: int, i: int, j: int)
    requires
        0 <= i < 27,
        0 <= j < 27,
        i != j,
    ensures
        neighbor_keys(qx, qy, qz)[i] != neighbor_keys(qx, qy, qz)[j],
{
    lemma_neighbor_key_at(qx, qy, qz, i);
    lemma_neighbor_key_at(qx, qy, qz, j);
    lemma_offsets_recompose(i);
    lemma_offsets_recompose(j);
    lemma_cell_key_injective(
        qx + offset_x(i),
        qy + offset_y(i),
        qz + offset_z(i),
        qx + offset_x(j),
        qy + offset_y(j),
        qz + offset_z(j),
    );
    lemma_axis_offset(qx + offset_x(i), qx, offset_x(j));
    lemma_axis_offset(qy + offset_y(i), qy, offset_y(j));
    lemma_axis_offset(qz + offset_z(i), qz, offset_z(j));
    lemma_offset_keys(offset_x(i), offset_x(j));
    lemma_offset_keys(offset_y(i), offset_y(j));
    lemma_offset_keys(offset_z(i), offset_z(j));
}

/// The 27 neighbour keys are pairwise distinct.
proof fn lemma_neighbor_keys_unique(qx: int, qy: int, qz: int)
    ensures
        neighbor_keys(qx, qy, qz).no_duplicates(),
{
    let keys = neighbor_keys(qx, qy, qz);
    assert forall|i: int, j: int| 0 <= i < keys.len() && 0 <= j < keys.len() && i != j implies keys[i]
        != keys[j] by {
        lemma_neighbor_keys_distinct(qx, qy, qz, i, j);
    }
}

/// A cell's key is among the neighbour keys of `q` exactly when the cell is
/// within one cell of `q` on each axis.
proof fn lemma_neighbor_keys_hit(qx: int, qy: int, qz: int, cx: int, cy: int, cz: int)
    ensures
        neighbor_keys(qx, qy, qz).contains(cell_key(cx, cy, cz)) <==> (axis_near(cx, qx)
            && axis_near(cy, qy) && axis_near(cz, qz)),
{
    let keys = neighbor_keys(qx, qy, qz);
    let k = cell_key(cx, cy, cz);
    if keys.contains(k) {
        let n = choose|n: int| 0 <= n < keys.len() && keys[n] == k;
        lemma_neighbor_key_at(qx, qy, qz, n);
        lemma_offsets_recompose(n);
        lemma_cell_key_injective(
            cx,
            cy,
            cz,
            qx + offset_x(n),
            qy + offset_y(n),
            qz + offset_z(n),
        );
        lemma_axis_offset(cx, qx, offset_x(n));
        lemma_axis_offset(cy, qy, offset_y(n));
        lemma_axis_offset(cz, qz, offset_z(n));
        lemma_offset_keys(offset_x(n), 0);
        lemma_offset_keys(offset_y(n), 0);
        lemma_offset_keys(offset_z(n), 0);
    }
    if axis_near(cx, qx) && axis_near(cy, qy) && axis_near(cz, qz) {
        let dx: int = if axis_key(cx - qx) == 1023 { -1 } else { axis_key(cx - qx) };
        let dy: int = if axis_key(cy - qy) == 1023 { -1 } else { axis_key(cy - qy) };
        let dz: int = if axis_key(cz - qz) == 1023 { -1 } else { axis_key(cz - qz) };
        let n = (dx + 1) * 9 + (dy + 1) * 3 + (dz + 1);
        assert(offset_x(n) == dx && offset_y(n) == dy && offset_z(n) == dz);
        lemma_neighbor_key_at(qx, qy, qz, n);
        lemma_offset_keys(dx, 0);
        lemma_offset_keys(dy, 0);
        lemma_offset_keys(dz, 0);
        lemma_axis_offset(cx, qx, dx);
        lemma_axis_offset(cy, qy, dy);
        lemma_axis_offset(cz, qz, dz);
        lemma_cell_key_injective(cx, cy, cz, qx + dx, qy + dy, qz + dz);
        assert(keys[n] == k);
    }
}

/// The run's gathered multiset around `q` is the multiset of its near indices.
proof fn lemma_gather_run_near(ops: Seq<(usize, int, int, int)>, qx: int, qy: int, qz: int)
    ensures
        gather_after(ops, neighbor_keys(qx, qy, qz)).to_multiset() == near_indices(
            ops,
            qx,
            qy,
            qz,
        ).to_multiset(),
    decreases ops.len(),
{
    broadcast use vstd::seq_lib::group_to_multiset_ensures;

    let keys = neighbor_keys(qx, qy, qz);
    if ops.len() == 0 {
        assert(ops =~= Seq::<(usize, int, int, int)>::empty());
        lemma_gather_empty_run(keys);
    } else {
        let prev = ops.drop_last();
        let op = ops.last();
        assert(prev.push(op) =~= ops);
        lemma_gather_run_near(prev, qx, qy, qz);
        lemma_neighbor_keys_unique(qx, qy, qz);
        lemma_neighbor_keys_hit(qx, qy, qz, op.1, op.2, op.3);
        lemma_gather_after_push(prev, op, keys);
    }
}

/// After a fresh grid (or a cleared one) has taken the run of inserts `ops`,
/// a query around the cell `(qx, qy, qz)` gives, as a multiset, exactly the
/// indices inserted into cells within one cell of it on each axis, the axes
/// wrapping every 1024 cells: each index once per insertion, and nothing else.
pub proof fn lemma_query_after_inserts(
    grid: &SpatialGrid,
    ops: Seq<(usize, int, int, int)>,
    qx: int,
    qy: int,
    qz: int,
)
    requires
        forall|k: u32| #[trigger] grid.bucket(k) == bucket_after(ops, k),
    ensures
        grid.gather(neighbor_keys(qx, qy, qz)).to_multiset() == near_indices(
            ops,
            qx,
            qy,
            qz,
        ).to_multiset(),
{
    lemma_gather_follows_run(grid, ops, neighbor_keys(qx, qy, qz));
    lemma_gather_run_near(ops, qx, qy, qz);
}

} // verus!
