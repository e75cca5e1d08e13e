use std::collections::HashMap;
use vstd::prelude::*;

verus! {

broadcast use vstd::std_specs::hash::group_hash_axioms;

/// A grid cell, addressed by its integer coordinates along x, y and z.
pub type Cell = (i32, i32, i32);

/// The integer that encodes a cell: x in the high bits, then y and z, each
/// shifted to be non-negative.
pub open spec fn cell_code(c: Cell) -> int {
    c.0 as int * 0x1_0000_0000_0000_0000 + (c.1 as int + 0x8000_0000) * 0x1_0000_0000 + (c.2 as int
        + 0x8000_0000)
}

/// The key under which the indices of a cell are stored.
pub open spec fn cell_key(c: Cell) -> i128 {
    cell_code(c) as i128
}

/// Distinct cells are stored under distinct keys.
pub proof fn lemma_cell_key_injective(a: Cell, b: Cell)
    requires
        cell_key(a) == cell_key(b),
    ensures
        a == b,
{
    lemma_cell_code_bounds(a);
    lemma_cell_code_bounds(b);
    assert(a.2 == b.2 && a.1 == b.1 && a.0 == b.0) by (nonlinear_arith)
        requires
            a.0 as int * 0x1_0000_0000_0000_0000 + (a.1 as int + 0x8000_0000) * 0x1_0000_0000 + (
            a.2 as int + 0x8000_0000) == b.0 as int * 0x1_0000_0000_0000_0000 + (b.1 as int
                + 0x8000_0000) * 0x1_0000_0000 + (b.2 as int + 0x8000_0000),
    ;
}

proof fn lemma_cell_code_bounds(c: Cell)
    ensures
        i128::MIN <= cell_code(c) <= i128::MAX,
        cell_key(c) as int == cell_code(c),
{
    assert(i128::MIN <= cell_code(c) <= i128::MAX) by (nonlinear_arith)
        requires
            i32::MIN <= c.0 <= i32::MAX,
            i32::MIN <= c.1 <= i32::MAX,
            i32::MIN <= c.2 <= i32::MAX,
    ;
}

fn key_of(c: Cell) -> (k: i128)
    ensures
        k == cell_key(c),
{
    proof {
        lemma_cell_code_bounds(c);
    }
    assert((c.0 as i128) * 0x1_0000_0000_0000_0000i128 == c.0 as int * 0x1_0000_0000_0000_0000)
        by (nonlinear_arith)
        requires
            i32::MIN <= c.0 <= i32::MAX,
    ;
    (c.0 as i128) * 0x1_0000_0000_0000_0000i128 + ((c.1 as i128) + 0x8000_0000i128)
        * 0x1_0000_0000i128 + ((c.2 as i128) + 0x8000_0000i128)
}

/// The indices stored in cell `c` of the grid `m`, empty where the cell holds none.
pub open spec fn cell_list(m: Map<Cell, Seq<usize>>, c: Cell) -> Seq<usize> {
    if m.contains_key(c) {
        m[c]
    } else {
        Seq::empty()
    }
}

/// The `k`-th of the 27 offsets that lead from a cell to itself and its
/// neighbours, with the x offset varying slowest and the z offset fastest,
/// each running from -1 to 1.
pub open spec fn neighbor_offset(k: int) -> (int, int, int) {
    (k / 9 - 1, (k / 3) % 3 - 1, k % 3 - 1)
}

/// The cell reached from `c` by the `k`-th offset.
pub open spec fn offset_cell(c: Cell, k: int) -> Cell {
    let o = neighbor_offset(k);
    ((c.0 + o.0) as i32, (c.1 + o.1) as i32, (c.2 + o.2) as i32)
}

/// The lists of the first `n` neighbouring cells of `c`, one after another.
pub open spec fn gather(m: Map<Cell, Seq<usize>>, c: Cell, n: nat) -> Seq<usize>
    decreases n,
{
    if n == 0 {
        Seq::empty()
    } else {
        gather(m, c, (n - 1) as nat) + cell_list(m, offset_cell(c, n - 1))
    }
}

/// Everything stored in the 3x3x3 block of cells around `c`, cell by cell in
/// offset order, each cell's list in the order in which it was filled.
pub open spec fn neighbor_list(m: Map<Cell, Seq<usize>>, c: Cell) -> Seq<usize> {
    gather(m, c, 27)
}

/// Whether every coordinate of `c` has a neighbour on both sides in `i32`.
pub open spec fn interior_cell(c: Cell) -> bool {
    &&& i32::MIN < c.0 < i32::MAX
    &&& i32::MIN < c.1 < i32::MAX
    &&& i32::MIN < c.2 < i32::MAX
}

/// A uniform grid that files ball indices under the cell that holds them.
pub struct SpatialGrid {
    cells: HashMap<i128, Vec<usize>>,
}

impl View for SpatialGrid {
    type V = Map<Cell, Seq<usize>>;

    closed spec fn view(&self) -> Map<Cell, Seq<usize>> {
        Map::new(
            |c: Cell| self.cells@.contains_key(cell_key(c)),
            |c: Cell| self.cells@[cell_key(c)]@,
        )
    }
}

fn append_all(dst: &mut Vec<usize>, src: &Vec<usize>)
    ensures
        final(dst)@ == old(dst)@ + src@,
{
    let mut i: usize = 0;
    while i < src.len()
        invariant
            i <= src.len(),
            dst@ == old(dst)@ + src@.take(i as int),
        decreases src.len() - i,
    {
        assert(src@.take(i as int + 1) == src@.take(i as int).push(src@[i as int]));
        dst.push(src[i]);
        i = i + 1;
    }
    assert(src@.take(src.len() as int) == src@);
}

impl SpatialGrid {
    /// An empty grid.
    pub fn new() -> (grid: SpatialGrid)
        ensures
            grid@ == Map::<Cell, Seq<usize>>::empty(),
    {
        let grid = SpatialGrid { cells: HashMap::new() };
        assert(grid@ =~= Map::<Cell, Seq<usize>>::empty());
        grid
    }

    /// Appends `index` to the list of `cell`, creating the list where the
    /// cell held none.
    pub fn insert(&mut self, index: usize, cell: Cell)
        ensures
            final(self)@ == old(self)@.insert(cell, cell_list(old(self)@, cell).push(index)),
    {
        let key: i128 = key_of(cell);
        let mut list: Vec<usize> = match self.cells.remove(&key) {
            Some(v) => v,
            None => Vec::new(),
        };
        assert(list@ == cell_list(old(self)@, cell));
        list.push(index);
        self.cells.insert(key, list);
        proof {
            assert forall|c: Cell| #![trigger cell_key(c)] c != cell implies cell_key(c) != key by {
                if cell_key(c) == key {
                    lemma_cell_key_injective(c, cell);
                }
            }
        }
        assert(self@ =~= old(self)@.insert(cell, cell_list(old(self)@, cell).push(index)));
    }

    /// Removes every cell's list.
    pub fn clear(&mut self)
        ensures
            final(self)@ == Map::<Cell, Seq<usize>>::empty(),
    {
        self.cells.clear();
        assert(self@ =~= Map::<Cell, Seq<usize>>::empty());
    }

    /// Replaces the content of `result` by everything stored in `cell` and its
    /// 26 neighbours (see `neighbor_list`).
    pub fn neighbors(&self, cell: Cell, result: &mut Vec<usize>)
        requires
            interior_cell(cell),
        ensures
            final(result)@ == neighbor_list(self@, cell),
    {
        result.clear();
        let mut dx: i32 = -1;
        while dx <= 1
            invariant
                interior_cell(cell),
                -1 <= dx <= 2,
                result@ == gather(self@, cell, (9 * (dx + 1)) as nat),
            decreases 2 - dx,
        {
            let mut dy: i32 = -1;
            while dy <= 1
                invariant
                    interior_cell(cell),
                    -1 <= dx <= 1,
                    -1 <= dy <= 2,
                    result@ == gather(self@, cell, (9 * (dx + 1) + 3 * (dy + 1)) as nat),
                decreases 2 - dy,
            {
                let mut dz: i32 = -1;
                while dz <= 1
                    invariant
                        interior_cell(cell),
                        -1 <= dx <= 1,
                        -1 <= dy <= 1,
                        -1 <= dz <= 2,
                        result@ == gather(
                            self@,
                            cell,
                            (9 * (dx + 1) + 3 * (dy + 1) + (dz + 1)) as nat,
                        ),
                    decreases 2 - dz,
                {
                    let ghost k: int = 9 * (dx + 1) + 3 * (dy + 1) + (dz + 1);
                    let here: Cell = (cell.0 + dx, cell.1 + dy, cell.2 + dz);
                    assert(neighbor_offset(k) == (dx as int, dy as int, dz as int));
                    assert(offset_cell(cell, k) == here);
                    let key: i128 = key_of(here);
                    match self.cells.get(&key) {
                        Some(list) => {
                            append_all(result, list);
                        },
                        None => {},
                    }
                    assert(result@ == gather(self@, cell, (k + 1) as nat));
                    dz = dz + 1;
                }
                dy = dy + 1;
            }
            dx = dx + 1;
        }
    }
}

} // verus!
