//! Integer positions within a 3D grid, and their linear indices.
use vstd::prelude::*;
use vstd::arithmetic::div_mod::{
    lemma_div_denominator, lemma_div_pos_is_pos, lemma_fundamental_div_mod,
    lemma_fundamental_div_mod_converse, lemma_mod_pos_bound,
};

verus! {

/// A position (or an extent) in a 3D grid.
#[derive(Debug, Clone, Copy, PartialEq, Eq, Hash, Structural)]
pub struct Position {
    x: u32,
    y: u32,
    z: u32,
}

/// The coordinate reached from `s` by the signed step `d`, wrapping around
/// the `u32` range.
pub open spec fn wrap_step(s: u32, d: i32) -> int {
    vstd::wrapping::u32_specs::wrapping_add_signed(s, d) as int
}

/// The `k`-th of the 27 offsets in `{-1, 0, 1}^3`, in the order x-major,
/// then y, then z.
pub open spec fn offset_x(k: int) -> int {
    k / 9 - 1
}

/// See `offset_x`.
pub open spec fn offset_y(k: int) -> int {
    (k / 3) % 3 - 1
}

/// See `offset_x`.
pub open spec fn offset_z(k: int) -> int {
    k % 3 - 1
}

/// Whether the `k`-th offset is used by the Moore neighborhood (`direct` is
/// false: every offset but the zero offset) or by the Von Neumann
/// neighborhood (`direct` is true: offsets with exactly one nonzero
/// coordinate).
pub open spec fn offset_used(k: int, direct: bool) -> bool {
    let nonzero = (if offset_x(k) != 0 { 1int } else { 0 }) + (if offset_y(k) != 0 { 1int } else { 0 })
        + (if offset_z(k) != 0 { 1int } else { 0 });
    if direct {
        nonzero == 1
    } else {
        nonzero != 0
    }
}

impl Position {
    /// The x coordinate.
    pub closed spec fn sx(self) -> u32 {
        self.x
    }

    /// The y coordinate.
    pub closed spec fn sy(self) -> u32 {
        self.y
    }

    /// The z coordinate.
    pub closed spec fn sz(self) -> u32 {
        self.z
    }

    /// The position with the given coordinates.
    pub closed spec fn at(x: u32, y: u32, z: u32) -> Position {
        Position { x, y, z }
    }

    /// Two positions are equal exactly when their coordinates are.
    pub proof fn lemma_at(x: u32, y: u32, z: u32)
        ensures
            Self::at(x, y, z).sx() == x,
            Self::at(x, y, z).sy() == y,
            Self::at(x, y, z).sz() == z,
    {
    }

    /// Two positions with equal coordinates are equal.
    pub proof fn lemma_ext(a: Position, b: Position)
        requires
            a.sx() == b.sx(),
            a.sy() == b.sy(),
            a.sz() == b.sz(),
        ensures
            a == b,
    {
    }

    /// The linear index of this position in a grid of the given extent.
    pub open spec fn index_spec(self, extent: Position) -> int {
        self.sx() + self.sy() * extent.sx() + self.sz() * extent.sx() * extent.sy()
    }

    /// Whether computing the linear index overflows no `u32`.
    pub open spec fn index_fits(self, extent: Position) -> bool {
        &&& self.sy() * extent.sx() <= u32::MAX
        &&& self.sz() * extent.sx() <= u32::MAX
        &&& self.sz() * extent.sx() * extent.sy() <= u32::MAX
        &&& self.index_spec(extent) <= u32::MAX
    }

    /// Whether the position lies inside a grid of the given extent.
    pub open spec fn valid_spec(self, extent: Position) -> bool {
        self.sx() < extent.sx() && self.sy() < extent.sy() && self.sz() < extent.sz()
    }

    /// The number of cells of a grid with this extent.
    pub open spec fn count_spec(self) -> int {
        self.sx() * self.sy() * self.sz()
    }

    /// Whether the cell count of this extent fits a `u32`.
    pub open spec fn count_fits(self) -> bool {
        self.sx() * self.sy() <= u32::MAX && self.count_spec() <= u32::MAX
    }

    /// Whether positions can be recovered from indices for this extent.
    pub open spec fn decodable(self) -> bool {
        self.sx() > 0 && self.sy() > 0 && self.sx() * self.sy() <= u32::MAX
    }

    /// The position whose linear index is `index` truncated to 32 bits.
    pub open spec fn from_index_spec(index: usize, extent: Position) -> Position {
        let i = (index as u32) as int;
        Self::at(
            (i % extent.sx() as int) as u32,
            ((i / extent.sx() as int) % extent.sy() as int) as u32,
            (i / (extent.sx() * extent.sy())) as u32,
        )
    }

    /// The position reached by the given signed step, each coordinate wrapping
    /// around the `u32` range; `None` when it lies outside the extent.
    pub open spec fn transform_spec(self, x: i32, y: i32, z: i32, extent: Position) -> Option<
        Position,
    > {
        let p = Self::at(
            wrap_step(self.sx(), x) as u32,
            wrap_step(self.sy(), y) as u32,
            wrap_step(self.sz(), z) as u32,
        );
        if p.valid_spec(extent) {
            Some(p)
        } else {
            None
        }
    }

    /// The neighbor reached by the `k`-th offset, if it is used and in bounds.
    pub open spec fn offset_neighbor(self, k: int, extent: Position, direct: bool) -> Option<
        Position,
    > {
        if offset_used(k, direct) {
            self.transform_spec(offset_x(k) as i32, offset_y(k) as i32, offset_z(k) as i32, extent)
        } else {
            None
        }
    }

    /// The in-bounds neighbors reached by the first `k` offsets, in order.
    pub open spec fn neighbors_upto(self, k: int, extent: Position, direct: bool) -> Seq<
        Position,
    >
        decreases k,
    {
        if k <= 0 {
            Seq::empty()
        } else {
            let prefix = self.neighbors_upto(k - 1, extent, direct);
            match self.offset_neighbor(k - 1, extent, direct) {
                Some(p) => prefix.push(p),
                None => prefix,
            }
        }
    }

    /// The in-bounds Moore (`direct` false) or Von Neumann (`direct` true)
    /// neighbors, in offset order.
    pub open spec fn neighbors_spec(self, extent: Position, direct: bool) -> Seq<Position> {
        self.neighbors_upto(27, extent, direct)
    }

    /// Creates a position from its coordinates.
    pub fn new(x: u32, y: u32, z: u32) -> (p: Self)
        ensures
            p == Self::at(x, y, z),
            p.sx() == x,
            p.sy() == y,
            p.sz() == z,
    {
        Self { x, y, z }
    }

    /// The linear index of this position in a grid of the given extent.
    pub fn index(&self, extent: &Position) -> (i: usize)
        requires
            self.index_fits(*extent),
        ensures
            i == self.index_spec(*extent),
    {
        proof {
            assert(self.y * extent.x <= self.index_spec(*extent));
        }
        (self.x + self.y * extent.x + self.z * extent.x * extent.y) as usize
    }

    /// The position whose linear index is `index` (truncated to 32 bits) in a
    /// grid of the given extent.
    pub fn from_index(index: usize, extent: &Position) -> (p: Self)
        requires
            extent.decodable(),
        ensures
            p == Self::from_index_spec(index, *extent),
    {
        let index = #[verifier::truncate] (index as u32);
        proof {
            let ex = extent.x;
            let ey = extent.y;
            assert(ex * ey > 0) by (nonlinear_arith)
                requires
                    ex > 0,
                    ey > 0,
            ;
        }
        let x = index % extent.x;
        let y = (index / extent.x) % extent.y;
        let z = index / (extent.x * extent.y);
        Self { x, y, z }
    }

    /// Whether the position lies inside a grid of the given extent.
    pub fn valid(&self, extent: &Position) -> (b: bool)
        ensures
            b == self.valid_spec(*extent),
    {
        self.x < extent.x && self.y < extent.y && self.z < extent.z
    }

    /// The position reached by the given step, if it lies inside the extent.
    pub fn transform(self, x: i32, y: i32, z: i32, extent: &Position) -> (r: Option<Self>)
        ensures
            r == self.transform_spec(x, y, z, *extent),
    {
        let pos = Self {
            x: self.x.wrapping_add_signed(x),
            y: self.y.wrapping_add_signed(y),
            z: self.z.wrapping_add_signed(z),
        };
        if pos.valid(extent) {
            Some(pos)
        } else {
            None
        }
    }

    /// The number of cells of a grid with this extent.
    pub fn grid_count(&self) -> (n: usize)
        requires
            self.count_fits(),
        ensures
            n == self.count_spec(),
    {
        (self.x * self.y * self.z) as usize
    }

    fn collect_neighbors(&self, extent: &Position, direct: bool) -> (r: Vec<Self>)
        ensures
            r@ == self.neighbors_spec(*extent, direct),
    {
        let mut neighbors: Vec<Position> = Vec::new();
        let mut k: i32 = 0;
        while k < 27
            invariant
                0 <= k <= 27,
                neighbors@ == self.neighbors_upto(k as int, *extent, direct),
            decreases 27 - k,
        {
            let x: i32 = k / 9 - 1;
            let y: i32 = (k / 3) % 3 - 1;
            let z: i32 = k % 3 - 1;
            let nonzero: i32 = (if x != 0 { 1i32 } else { 0 }) + (if y != 0 { 1i32 } else { 0 }) + (
            if z != 0 {
                1i32
            } else {
                0
            });
            let used = if direct {
                nonzero == 1
            } else {
                nonzero != 0
            };
            if used {
                if let Some(pos) = self.transform(x, y, z, extent) {
                    neighbors.push(pos);
                }
            }
            k = k + 1;
        }
        neighbors
    }

    /// The in-bounds Moore neighbors (diagonals included), in the order of
    /// the offsets x, then y, then z, each from -1 to 1.
    pub fn neighbors(&self, extent: &Position) -> (r: Vec<Self>)
        ensures
            r@ == self.neighbors_spec(*extent, false),
    {
        self.collect_neighbors(extent, false)
    }

    /// The in-bounds Von Neumann neighbors (diagonals excluded), in the same
    /// order as `neighbors`.
    pub fn direct_neighbors(&self, extent: &Position) -> (r: Vec<Self>)
        ensures
            r@ == self.neighbors_spec(*extent, true),
    {
        self.collect_neighbors(extent, true)
    }

    /// The x coordinate.
    pub fn x(&self) -> (r: u32)
        ensures
            r == self.sx(),
    {
        self.x
    }

    /// The y coordinate.
    pub fn y(&self) -> (r: u32)
        ensures
            r == self.sy(),
    {
        self.y
    }

    /// The z coordinate.
    pub fn z(&self) -> (r: u32)
        ensures
            r == self.sz(),
    {
        self.z
    }
}


/// Decoding the linear index of a position inside the grid gives the position
/// back.
pub proof fn lemma_index_roundtrip(p: Position, extent: Position)
    requires
        p.valid_spec(extent),
        extent.decodable(),
        p.index_fits(extent),
    ensures
        Position::from_index_spec(p.index_spec(extent) as usize, extent) == p,
{
    let x = p.sx() as int;
    let y = p.sy() as int;
    let z = p.sz() as int;
    let ex = extent.sx() as int;
    let ey = extent.sy() as int;
    let i = p.index_spec(extent);
    assert(((i as usize) as u32) as int == i);
    assert(i == (y + z * ey) * ex + x) by (nonlinear_arith)
        requires
            i == x + y * ex + z * ex * ey,
    ;
    lemma_fundamental_div_mod_converse(i, ex, y + z * ey, x);
    lemma_fundamental_div_mod_converse(y + z * ey, ey, z, y);
    assert(0 <= x + y * ex < ex * ey && i == z * (ex * ey) + (x + y * ex)) by (nonlinear_arith)
        requires
            0 <= x < ex,
            0 <= y < ey,
            i == x + y * ex + z * ex * ey,
    ;
    lemma_fundamental_div_mod_converse(i, ex * ey, z, x + y * ex);
    Position::lemma_ext(Position::from_index_spec(i as usize, extent), p);
}

/// Every index below the cell count decodes to a position inside the grid
/// whose linear index is that index again.
pub proof fn lemma_from_index_roundtrip(i: usize, extent: Position)
    requires
        extent.decodable(),
        extent.count_fits(),
        i < extent.count_spec(),
    ensures
        Position::from_index_spec(i, extent).valid_spec(extent),
        Position::from_index_spec(i, extent).index_fits(extent),
        Position::from_index_spec(i, extent).index_spec(extent) == i,
{
    let ex = extent.sx() as int;
    let ey = extent.sy() as int;
    let ez = extent.sz() as int;
    let ii = i as int;
    assert((i as u32) as int == ii);
    let p = Position::from_index_spec(i, extent);
    let x = ii % ex;
    let q = ii / ex;
    let y = q % ey;
    let z = ii / (ex * ey);
    lemma_fundamental_div_mod(ii, ex);
    lemma_fundamental_div_mod(q, ey);
    lemma_mod_pos_bound(ii, ex);
    lemma_mod_pos_bound(q, ey);
    lemma_div_pos_is_pos(ii, ex);
    lemma_div_denominator(ii, ex, ey);
    lemma_div_pos_is_pos(q, ey);
    assert(z == q / ey);
    assert(ii == x + y * ex + z * ex * ey) by (nonlinear_arith)
        requires
            ii == ex * q + x,
            q == ey * z + y,
    ;
    assert(z < ez) by (nonlinear_arith)
        requires
            ii == x + y * ex + z * ex * ey,
            ii < ex * ey * ez,
            0 <= x,
            0 <= y,
            ex > 0,
            ey > 0,
    ;
    assert(y * ex <= ii && z * ex <= z * ex * ey && z * ex * ey <= ii) by (nonlinear_arith)
        requires
            ii == x + y * ex + z * ex * ey,
            0 <= x,
            0 <= y,
            0 <= z,
            ex > 0,
            ey > 0,
    ;
    assert(p.sx() == x && p.sy() == y && p.sz() == z);
}

/// The coordinates of a position inside the grid step by plain addition: a
/// step of -1, 0 or 1 never wraps into the grid.
proof fn lemma_step_in_bounds(s: u32, d: i32, e: u32)
    requires
        s < e,
        -1 <= d <= 1,
    ensures
        (wrap_step(s, d) < e) <==> (0 <= s + d < e),
        0 <= s + d < e ==> wrap_step(s, d) == s + d,
{
}

/// Each neighbor of a position inside the grid lies inside the grid, differs
/// from the position, and is at most one step away on each axis; a Von
/// Neumann neighbor differs on exactly one axis.
pub proof fn lemma_neighbors_adjacent(p: Position, extent: Position, direct: bool, j: int)
    requires
        p.valid_spec(extent),
        0 <= j < p.neighbors_spec(extent, direct).len(),
    ensures
        ({
            let n = p.neighbors_spec(extent, direct)[j];
            &&& n.valid_spec(extent)
            &&& n != p
            &&& -1 <= n.sx() - p.sx() <= 1
            &&& -1 <= n.sy() - p.sy() <= 1
            &&& -1 <= n.sz() - p.sz() <= 1
            &&& direct ==> (if n.sx() != p.sx() { 1int } else { 0 }) + (if n.sy() != p.sy() { 1int } else { 0 })
                + (if n.sz() != p.sz() { 1int } else { 0 }) == 1
        }),
{
    lemma_neighbors_upto_adjacent(p, extent, direct, 27, j);
}

proof fn lemma_neighbors_upto_adjacent(p: Position, extent: Position, direct: bool, k: int, j: int)
    requires
        p.valid_spec(extent),
        0 <= k <= 27,
        0 <= j < p.neighbors_upto(k, extent, direct).len(),
    ensures
        ({
            let n = p.neighbors_upto(k, extent, direct)[j];
            &&& n.valid_spec(extent)
            &&& n != p
            &&& -1 <= n.sx() - p.sx() <= 1
            &&& -1 <= n.sy() - p.sy() <= 1
            &&& -1 <= n.sz() - p.sz() <= 1
            &&& direct ==> (if n.sx() != p.sx() { 1int } else { 0 }) + (if n.sy() != p.sy() { 1int } else { 0 })
                + (if n.sz() != p.sz() { 1int } else { 0 }) == 1
        }),
    decreases k,
{
    let prefix = p.neighbors_upto(k - 1, extent, direct);
    if j < prefix.len() {
        lemma_neighbors_upto_adjacent(p, extent, direct, k - 1, j);
    } else {
        let kk = k - 1;
        let dx = offset_x(kk);
        let dy = offset_y(kk);
        let dz = offset_z(kk);
        assert(-1 <= dx <= 1 && -1 <= dy <= 1 && -1 <= dz <= 1);
        lemma_step_in_bounds(p.sx(), dx as i32, extent.sx());
        lemma_step_in_bounds(p.sy(), dy as i32, extent.sy());
        lemma_step_in_bounds(p.sz(), dz as i32, extent.sz());
        let n = p.neighbors_upto(k, extent, direct)[j];
        Position::lemma_at(
            wrap_step(p.sx(), dx as i32) as u32,
            wrap_step(p.sy(), dy as i32) as u32,
            wrap_step(p.sz(), dz as i32) as u32,
        );
        assert(n.sx() == p.sx() + dx && n.sy() == p.sy() + dy && n.sz() == p.sz() + dz);
    }
}

/// How many of the first `k` offsets the neighborhood uses.
pub open spec fn used_count(k: int, direct: bool) -> int
    decreases k,
{
    if k <= 0 {
        0
    } else {
        used_count(k - 1, direct) + if offset_used(k - 1, direct) { 1int } else { 0 }
    }
}

proof fn lemma_upto_len(p: Position, extent: Position, direct: bool, k: int)
    ensures
        p.neighbors_upto(k, extent, direct).len() <= used_count(k, direct),
    decreases k,
{
    if k > 0 {
        lemma_upto_len(p, extent, direct, k - 1);
    }
}

/// A position has at most 26 Moore neighbors and at most 6 Von Neumann
/// neighbors.
pub proof fn lemma_neighbor_counts(p: Position, extent: Position)
    ensures
        p.neighbors_spec(extent, false).len() <= 26,
        p.neighbors_spec(extent, true).len() <= 6,
{
    lemma_upto_len(p, extent, false, 27);
    lemma_upto_len(p, extent, true, 27);
    reveal_with_fuel(used_count, 28);
    assert(used_count(27, false) == 26);
    assert(used_count(27, true) == 6);
}

} // verus!
