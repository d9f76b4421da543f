//! World grid: a flat block-state array with neighbor queries.

use vstd::prelude::*;

verus! {

/// World dimensions in blocks of the validation scene.
pub const WORLD_X: u32 = 32;

pub const WORLD_Y: u32 = 16;

pub const WORLD_Z: u32 = 32;

/// A dense world grid of (block_id, state_id) pairs.
pub struct World {
    pub size: [u32; 3],
    /// `block_id` per cell (0 = air).
    pub blocks: Vec<u32>,
    /// `state_id` per cell (packed property index per block).
    pub states: Vec<u32>,
}

/// The number of cells of a grid.
pub open spec fn volume(size: [u32; 3]) -> int {
    size[0] * size[1] * size[2]
}

/// A size whose cell count can be computed in 32 bits.
pub open spec fn size_fits(size: [u32; 3]) -> bool {
    size[0] * size[1] <= u32::MAX && volume(size) <= u32::MAX
}

/// The coordinate lies in the grid.
pub open spec fn in_grid(size: [u32; 3], x: int, y: int, z: int) -> bool {
    0 <= x < size[0] && 0 <= y < size[1] && 0 <= z < size[2]
}

/// The position of a cell in the flat arrays: x runs fastest, y slowest.
pub open spec fn cell_index(size: [u32; 3], x: int, y: int, z: int) -> int {
    (y * size[2] + z) * size[0] + x
}

/// Cells of the grid have positions inside the flat arrays.
pub proof fn lemma_cell_index_bounds(size: [u32; 3], x: int, y: int, z: int)
    requires
        in_grid(size, x, y, z),
    ensures
        0 <= cell_index(size, x, y, z) < volume(size),
        0 <= y * size[2] + z < size[1] * size[2],
{
    let a = size[0] as int;
    let b = size[1] as int;
    let c = size[2] as int;
    assert(0 <= y * c + z < b * c) by (nonlinear_arith)
        requires
            0 <= y < b,
            0 <= z < c,
    ;
    let r = y * c + z;
    assert(0 <= r * a + x < b * c * a) by (nonlinear_arith)
        requires
            0 <= r < b * c,
            0 <= x < a,
    ;
    assert(b * c * a == a * b * c) by (nonlinear_arith);
}

/// Distinct cells have distinct positions.
pub proof fn lemma_cell_index_injective(
    size: [u32; 3],
    x: int,
    y: int,
    z: int,
    x2: int,
    y2: int,
    z2: int,
)
    requires
        in_grid(size, x, y, z),
        in_grid(size, x2, y2, z2),
        cell_index(size, x, y, z) == cell_index(size, x2, y2, z2),
    ensures
        x == x2 && y == y2 && z == z2,
{
    let a = size[0] as int;
    let c = size[2] as int;
    let r = y * c + z;
    let r2 = y2 * c + z2;
    assert(r == r2 && x == x2) by (nonlinear_arith)
        requires
            r * a + x == r2 * a + x2,
            0 <= x < a,
            0 <= x2 < a,
    ;
    assert(y == y2 && z == z2) by (nonlinear_arith)
        requires
            y * c + z == y2 * c + z2,
            0 <= z < c,
            0 <= z2 < c,
    ;
}

/// The coordinate of a position, as (x, y, z).
pub open spec fn coords(size: [u32; 3], i: int) -> (int, int, int) {
    let row = i / (size[0] as int);
    (i % (size[0] as int), row / (size[2] as int), row % (size[2] as int))
}

/// `coords` undoes `cell_index`.
pub proof fn lemma_coords_of_cell(size: [u32; 3], x: int, y: int, z: int)
    requires
        in_grid(size, x, y, z),
    ensures
        coords(size, cell_index(size, x, y, z)) == (x, y, z),
{
    let a = size[0] as int;
    let c = size[2] as int;
    let row = y * c + z;
    let i = row * a + x;
    assert(i / a == row && i % a == x) by (nonlinear_arith)
        requires
            i == row * a + x,
            0 <= x < a,
            row >= 0,
    {
        vstd::arithmetic::div_mod::lemma_fundamental_div_mod_converse(i, a, row, x);
    }
    assert(row / c == y && row % c == z) by (nonlinear_arith)
        requires
            row == y * c + z,
            0 <= z < c,
            y >= 0,
    {
        vstd::arithmetic::div_mod::lemma_fundamental_div_mod_converse(row, c, y, z);
    }
}

/// `cell_index` undoes `coords`.
pub proof fn lemma_cell_of_coords(size: [u32; 3], i: int)
    requires
        0 <= i < volume(size),
    ensures
        ({
            let (x, y, z) = coords(size, i);
            in_grid(size, x, y, z) && cell_index(size, x, y, z) == i
        }),
{
    let a = size[0] as int;
    let b = size[1] as int;
    let c = size[2] as int;
    assert(a * b * c == b * c * a) by (nonlinear_arith);
    assert(a > 0 && c > 0 && b > 0) by (nonlinear_arith)
        requires
            0 < a * b * c,
            a >= 0,
            b >= 0,
            c >= 0,
    ;
    let row = i / a;
    let x = i % a;
    let y = row / c;
    let z = row % c;
    vstd::arithmetic::div_mod::lemma_fundamental_div_mod(i, a);
    vstd::arithmetic::div_mod::lemma_fundamental_div_mod(row, c);
    assert(row * a + x == i && y * c + z == row) by (nonlinear_arith)
        requires
            i == a * row + x,
            row == c * y + z,
    ;
    assert(0 <= row < b * c) by (nonlinear_arith)
        requires
            row * a + x == i,
            0 <= i < b * c * a,
            0 <= x < a,
    ;
    assert(0 <= y < b) by (nonlinear_arith)
        requires
            y * c + z == row,
            0 <= row < b * c,
            0 <= z < c,
    ;
}

/// The flat array of a function of the coordinates.
pub open spec fn tabulated<T>(size: [u32; 3], f: spec_fn(int, int, int) -> T) -> Seq<T> {
    Seq::new(
        volume(size) as nat,
        |i: int| f(coords(size, i).0, coords(size, i).1, coords(size, i).2),
    )
}

/// The next coordinate in array order; past the last row y is the height.
pub fn advance(size: [u32; 3], x: u32, y: u32, z: u32) -> (r: (u32, u32, u32))
    requires
        in_grid(size, x as int, y as int, z as int),
    ensures
        cell_index(size, r.0 as int, r.1 as int, r.2 as int) == cell_index(
            size,
            x as int,
            y as int,
            z as int,
        ) + 1,
        in_grid(size, r.0 as int, r.1 as int, r.2 as int) || (r.0 == 0 && r.1 == size[1] && r.2
            == 0),
{
    let ghost a = size[0] as int;
    let ghost c = size[2] as int;
    if x + 1 < size[0] {
        (x + 1, y, z)
    } else if z + 1 < size[2] {
        assert((y * c + z) * a + a == (y * c + (z + 1)) * a) by (nonlinear_arith);
        (0, y, z + 1)
    } else {
        assert((y * c + (c - 1)) * a + a == ((y + 1) * c + 0) * a) by (nonlinear_arith);
        (0, y + 1, 0)
    }
}

/// The position after the last cell is the number of cells.
pub proof fn lemma_end_index(size: [u32; 3])
    ensures
        cell_index(size, 0, size[1] as int, 0) == volume(size),
        cell_index(size, 0, 0, 0) == 0,
{
    let a = size[0] as int;
    let b = size[1] as int;
    let c = size[2] as int;
    assert((b * c + 0) * a + 0 == a * b * c) by (nonlinear_arith);
    assert((0 * c + 0) * a == 0) by (nonlinear_arith);
}

impl World {
    /// Both arrays hold one entry per cell, and the cell count fits.
    pub open spec fn wf(&self) -> bool {
        &&& size_fits(self.size)
        &&& self.blocks.len() == volume(self.size)
        &&& self.states.len() == volume(self.size)
    }

    /// The (block, state) pair of a cell of the grid.
    pub open spec fn cell(&self, x: int, y: int, z: int) -> (u32, u32) {
        let i = cell_index(self.size, x, y, z);
        (self.blocks[i], self.states[i])
    }

    /// What a query at a coordinate answers: nothing outside the grid.
    /// Coordinates are read modulo two to the 32.
    pub open spec fn lookup(&self, x: i64, y: i64, z: i64) -> Option<(u32, u32)> {
        if x < 0 || y < 0 || z < 0 || !in_grid(
            self.size,
            (x as u32) as int,
            (y as u32) as int,
            (z as u32) as int,
        ) {
            None
        } else {
            Some(self.cell((x as u32) as int, (y as u32) as int, (z as u32) as int))
        }
    }

    /// An all-air world.
    pub fn new(size: [u32; 3]) -> (r: World)
        requires
            size_fits(size),
        ensures
            r.wf(),
            r.size == size,
            forall|i: int| 0 <= i < volume(size) ==> r.blocks[i] == 0 && r.states[i] == 0,
    {
        let n: usize = (size[0] * size[1] * size[2]) as usize;
        World { size, blocks: vec![0; n], states: vec![0; n] }
    }

    pub fn index(&self, x: u32, y: u32, z: u32) -> (r: Option<usize>)
        requires
            size_fits(self.size),
        ensures
            r == (if in_grid(self.size, x as int, y as int, z as int) {
                Some(cell_index(self.size, x as int, y as int, z as int) as usize)
            } else {
                None
            }),
            r matches Some(i) ==> i < volume(self.size) && i == cell_index(
                self.size,
                x as int,
                y as int,
                z as int,
            ),
    {
        if x >= self.size[0] || y >= self.size[1] || z >= self.size[2] {
            return None;
        }
        proof {
            lemma_cell_index_bounds(self.size, x as int, y as int, z as int);
            let a = self.size[0] as int;
            let b = self.size[1] as int;
            let c = self.size[2] as int;
            let row = y * c + z;
            assert(b * c * 1 <= b * c * a) by (nonlinear_arith)
                requires
                    a >= 1,
                    b >= 0,
                    c >= 0,
            ;
            assert(b * c * a == a * b * c) by (nonlinear_arith);
            assert(0 <= y * c <= row) by (nonlinear_arith)
                requires
                    y >= 0,
                    c >= 0,
                    row == y * c + z,
                    z >= 0,
            ;
            assert(0 <= row * a) by (nonlinear_arith)
                requires
                    row >= 0,
                    a >= 0,
            ;
        }
        Some(((y * self.size[2] + z) * self.size[0] + x) as usize)
    }

    /// Writes one cell; coordinates outside the grid change nothing.
    pub fn set(&mut self, x: u32, y: u32, z: u32, block: u32, state: u32)
        requires
            old(self).wf(),
        ensures
            final(self).wf(),
            final(self).size == old(self).size,
            in_grid(old(self).size, x as int, y as int, z as int) ==> {
                let i = cell_index(old(self).size, x as int, y as int, z as int);
                &&& final(self).blocks@ == old(self).blocks@.update(i, block)
                &&& final(self).states@ == old(self).states@.update(i, state)
            },
            !in_grid(old(self).size, x as int, y as int, z as int) ==> {
                &&& final(self).blocks@ == old(self).blocks@
                &&& final(self).states@ == old(self).states@
            },
    {
        if let Some(i) = self.index(x, y, z) {
            self.blocks[i] = block;
            self.states[i] = state;
        }
    }

    pub fn get(&self, x: i64, y: i64, z: i64) -> (r: Option<(u32, u32)>)
        requires
            self.wf(),
        ensures
            r == self.lookup(x, y, z),
    {
        if x < 0 || y < 0 || z < 0 {
            return None;
        }
        #[verifier::truncate]
        let ux: u32 = x as u32;
        #[verifier::truncate]
        let uy: u32 = y as u32;
        #[verifier::truncate]
        let uz: u32 = z as u32;
        match self.index(ux, uy, uz) {
            Some(i) => Some((self.blocks[i], self.states[i])),
            None => None,
        }
    }
}

/// A read of these coordinates looks into the cell `(x, y, z)`: each is taken
/// modulo the range of a cell's coordinates, and none is negative.
pub open spec fn reads_cell(x2: i64, y2: i64, z2: i64, x: u32, y: u32, z: u32) -> bool {
    &&& x2 >= 0 && y2 >= 0 && z2 >= 0
    &&& (x2 as u32, y2 as u32, z2 as u32) == (x, y, z)
}

/// A read gives back the last write: after `set` at a cell of the grid, every
/// read of the cell gives what was written and every other read is unchanged.
pub proof fn law_set_get(
    before: World,
    after: World,
    x: u32,
    y: u32,
    z: u32,
    block: u32,
    state: u32,
    x2: i64,
    y2: i64,
    z2: i64,
)
    requires
        before.wf(),
        after.wf(),
        after.size == before.size,
        in_grid(before.size, x as int, y as int, z as int),
        after.blocks@ == before.blocks@.update(
            cell_index(before.size, x as int, y as int, z as int),
            block,
        ),
        after.states@ == before.states@.update(
            cell_index(before.size, x as int, y as int, z as int),
            state,
        ),
    ensures
        reads_cell(x as i64, y as i64, z as i64, x, y, z),
        reads_cell(x2, y2, z2, x, y, z) ==> after.lookup(x2, y2, z2) == Some((block, state)),
        !reads_cell(x2, y2, z2, x, y, z) ==> after.lookup(x2, y2, z2) == before.lookup(
            x2,
            y2,
            z2,
        ),
{
    let (a, b, c) = ((x2 as u32) as int, (y2 as u32) as int, (z2 as u32) as int);
    lemma_cell_index_bounds(before.size, x as int, y as int, z as int);
    if in_grid(before.size, a, b, c) {
        lemma_cell_index_bounds(before.size, a, b, c);
        if cell_index(before.size, x as int, y as int, z as int) == cell_index(
            before.size,
            a,
            b,
            c,
        ) {
            lemma_cell_index_injective(before.size, x as int, y as int, z as int, a, b, c);
        }
    }
}

/// Cells follow each other along x, rows along z and layers along y.
pub proof fn law_cells_run_along_x_then_z_then_y(size: [u32; 3], x: int, y: int, z: int)
    ensures
        cell_index(size, 0, 0, 0) == 0,
        cell_index(size, x + 1, y, z) == cell_index(size, x, y, z) + 1,
        cell_index(size, x, y, z + 1) == cell_index(size, x, y, z) + size[0],
        cell_index(size, x, y + 1, z) == cell_index(size, x, y, z) + size[0] * size[2],
        volume(size) == size[0] * size[1] * size[2],
{
    let (w, d) = (size[0] as int, size[2] as int);
    assert((y * d + (z + 1)) * w + x == (y * d + z) * w + x + w) by (nonlinear_arith);
    assert(((y + 1) * d + z) * w + x == (y * d + z) * w + x + w * d) by (nonlinear_arith);
    assert((0 * d + 0) * w + 0 == 0) by (nonlinear_arith);
}

/// A place in the grid holds its cell, and a place outside holds nothing.
pub proof fn law_places_outside_are_empty(w: World, x: i64, y: i64, z: i64)
    requires
        w.wf(),
        x <= u32::MAX,
        y <= u32::MAX,
        z <= u32::MAX,
    ensures
        w.lookup(x, y, z) is Some <==> 0 <= x < w.size[0] && 0 <= y < w.size[1] && 0 <= z
            < w.size[2],
        w.lookup(x, y, z) matches Some(c) ==> c == (
            w.blocks@[(y * w.size[2] + z) * w.size[0] + x],
            w.states@[(y * w.size[2] + z) * w.size[0] + x],
        ),
{
}

} // verus!
