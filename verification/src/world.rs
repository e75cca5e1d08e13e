use vstd::prelude::*;
use crate::grid::{Cell, SpatialGrid, cell_list, gather, interior_cell, neighbor_list, neighbor_offset, offset_cell};

verus! {

/// The indices `i` with `cells[i] == c`, in increasing order.
pub open spec fn indices_in(cells: Seq<Cell>, c: Cell) -> Seq<usize>
    decreases cells.len(),
{
    if cells.len() == 0 {
        Seq::empty()
    } else {
        let rest = indices_in(cells.drop_last(), c);
        if cells.last() == c {
            rest.push((cells.len() - 1) as usize)
        } else {
            rest
        }
    }
}

/// The grid in which ball `i` is filed under `cells[i]`, for every ball.
pub open spec fn filed(cells: Seq<Cell>) -> Map<Cell, Seq<usize>> {
    Map::new(
        |c: Cell| exists|i: int| 0 <= i < cells.len() && cells[i] == c,
        |c: Cell| indices_in(cells, c),
    )
}

/// Whether cell `a` lies in the 3x3x3 block of cells around `c`.
pub open spec fn adjacent(a: Cell, c: Cell) -> bool {
    &&& -1 <= a.0 - c.0 <= 1
    &&& -1 <= a.1 - c.1 <= 1
    &&& -1 <= a.2 - c.2 <= 1
}

/// The entries of `s` greater than `i`, in their order in `s`.
pub open spec fn later_than(s: Seq<usize>, i: usize) -> Seq<usize>
    decreases s.len(),
{
    if s.len() == 0 {
        Seq::empty()
    } else {
        let rest = later_than(s.drop_last(), i);
        if s.last() > i {
            rest.push(s.last())
        } else {
            rest
        }
    }
}

/// Files every ball anew: clears `grid`, then puts index `i` under `cells[i]`
/// for each `i` in increasing order.
pub fn board_phase(grid: &mut SpatialGrid, cells: &Vec<Cell>)
    ensures
        final(grid)@ == filed(cells@),
{
    grid.clear();
    assert(filed(cells@.take(0)) =~= Map::<Cell, Seq<usize>>::empty());
    let mut i: usize = 0;
    while i < cells.len()
        invariant
            i <= cells.len(),
            grid@ == filed(cells@.take(i as int)),
        decreases cells.len() - i,
    {
        let c: Cell = cells[i];
        proof {
            lemma_filed_step(cells@.take(i as int), c);
            assert(cells@.take(i as int).push(c) == cells@.take(i as int + 1));
        }
        grid.insert(i, c);
        i = i + 1;
    }
    assert(cells@.take(cells.len() as int) == cells@);
}

/// The balls after `index` that share the 3x3x3 block around `cell`: those
/// entries of the block's lists that are greater than `index`, in the order
/// of `neighbor_list`.
pub fn collision_partners(grid: &SpatialGrid, index: usize, cell: Cell) -> (partners: Vec<usize>)
    requires
        interior_cell(cell),
    ensures
        partners@ == later_than(neighbor_list(grid@, cell), index),
{
    let mut around: Vec<usize> = Vec::new();
    grid.neighbors(cell, &mut around);
    let mut partners: Vec<usize> = Vec::new();
    let mut k: usize = 0;
    while k < around.len()
        invariant
            k <= around.len(),
            around@ == neighbor_list(grid@, cell),
            partners@ == later_than(around@.take(k as int), index),
        decreases around.len() - k,
    {
        assert(around@.take(k as int + 1).drop_last() == around@.take(k as int));
        let j: usize = around[k];
        if j > index {
            partners.push(j);
        }
        k = k + 1;
    }
    assert(around@.take(around.len() as int) == around@);
    partners
}

proof fn lemma_filed_step(cells: Seq<Cell>, c: Cell)
    requires
        cells.len() < usize::MAX,
    ensures
        filed(cells.push(c)) == filed(cells).insert(
            c,
            cell_list(filed(cells), c).push(cells.len() as usize),
        ),
{
    let next = cells.push(c);
    assert(next.drop_last() == cells);
    lemma_cell_list_filed(cells, c);
    assert forall|d: Cell| #[trigger] filed(next).contains_key(d) == (d == c || filed(
        cells,
    ).contains_key(d)) by {
        if filed(next).contains_key(d) && d != c {
            let i = choose|i: int| 0 <= i < next.len() && next[i] == d;
            assert(cells[i] == d);
        }
        if filed(cells).contains_key(d) {
            let i = choose|i: int| 0 <= i < cells.len() && cells[i] == d;
            assert(next[i] == d);
        }
        if d == c {
            assert(next[cells.len() as int] == d);
        }
    }
    assert(filed(next) =~= filed(cells).insert(
        c,
        cell_list(filed(cells), c).push(cells.len() as usize),
    ));
}

/// What `indices_in` holds: exactly the positions of `c` in `cells`, each once,
/// in increasing order.
pub proof fn lemma_indices_in(cells: Seq<Cell>, c: Cell)
    requires
        cells.len() <= usize::MAX,
    ensures
        forall|k: int|
            0 <= k < indices_in(cells, c).len() ==> {
                &&& #[trigger] indices_in(cells, c)[k] < cells.len()
                &&& cells[indices_in(cells, c)[k] as int] == c
            },
        forall|i: int|
            0 <= i < cells.len() && cells[i] == c ==> #[trigger] indices_in(cells, c).contains(
                i as usize,
            ),
        forall|k1: int, k2: int|
            0 <= k1 < k2 < indices_in(cells, c).len() ==> #[trigger] indices_in(cells, c)[k1]
                < #[trigger] indices_in(cells, c)[k2],
    decreases cells.len(),
{
    if cells.len() > 0 {
        let rest = cells.drop_last();
        lemma_indices_in(rest, c);
        let r = indices_in(rest, c);
        let last = (cells.len() - 1) as usize;
        assert forall|i: int|
            0 <= i < cells.len() && cells[i] == c implies #[trigger] indices_in(cells, c).contains(
            i as usize,
        ) by {
            if i < rest.len() {
                assert(rest[i] == c);
                assert(r.contains(i as usize));
                let k = choose|k: int| 0 <= k < r.len() && r[k] == i as usize;
                assert(indices_in(cells, c)[k] == i as usize);
            } else {
                assert(indices_in(cells, c)[r.len() as int] == last);
            }
        }
    }
}

proof fn lemma_cell_list_filed(cells: Seq<Cell>, c: Cell)
    requires
        cells.len() <= usize::MAX,
    ensures
        cell_list(filed(cells), c) == indices_in(cells, c),
{
    lemma_indices_in(cells, c);
    if !filed(cells).contains_key(c) {
        if indices_in(cells, c).len() > 0 {
            assert(cells[indices_in(cells, c)[0] as int] == c);
        }
        assert(indices_in(cells, c) =~= Seq::<usize>::empty());
    }
}

/// Ball `j` is filed under cell `c` exactly when `cells[j] == c`; each cell's
/// list is strictly increasing.
pub proof fn lemma_filed_cell(cells: Seq<Cell>, c: Cell, j: usize)
    requires
        cells.len() <= usize::MAX,
    ensures
        cell_list(filed(cells), c).contains(j) <==> (j < cells.len() && cells[j as int] == c),
        cell_list(filed(cells), c).no_duplicates(),
{
    lemma_cell_list_filed(cells, c);
    lemma_indices_in(cells, c);
    let r = indices_in(cells, c);
    if r.contains(j) {
        let k = choose|k: int| 0 <= k < r.len() && r[k] == j;
        assert(r[k] < cells.len());
    }
    if j < cells.len() && cells[j as int] == c {
        assert(r.contains(j as int as usize));
    }
    assert forall|k1: int, k2: int| 0 <= k1 < r.len() && 0 <= k2 < r.len() && k1 != k2 implies r[k1]
        != r[k2] by {
        if k1 < k2 {
            assert(r[k1] < r[k2]);
        } else {
            assert(r[k2] < r[k1]);
        }
    }
}

proof fn lemma_concat_contains(a: Seq<usize>, b: Seq<usize>, x: usize)
    ensures
        (a + b).contains(x) <==> a.contains(x) || b.contains(x),
{
    if (a + b).contains(x) {
        let k = choose|k: int| 0 <= k < (a + b).len() && (a + b)[k] == x;
        if k < a.len() {
            assert(a[k] == x);
        } else {
            assert(b[k - a.len()] == x);
        }
    }
    if a.contains(x) {
        let k = choose|k: int| 0 <= k < a.len() && a[k] == x;
        assert((a + b)[k] == x);
    }
    if b.contains(x) {
        let k = choose|k: int| 0 <= k < b.len() && b[k] == x;
        assert((a + b)[k + a.len()] == x);
    }
}

proof fn lemma_gather_contains(m: Map<Cell, Seq<usize>>, c: Cell, n: nat, j: usize)
    ensures
        gather(m, c, n).contains(j) <==> exists|k: int|
            0 <= k < n && #[trigger] cell_list(m, offset_cell(c, k)).contains(j),
    decreases n,
{
    if n > 0 {
        lemma_gather_contains(m, c, (n - 1) as nat, j);
        lemma_concat_contains(
            gather(m, c, (n - 1) as nat),
            cell_list(m, offset_cell(c, n - 1)),
            j,
        );
        if exists|k: int| 0 <= k < n && #[trigger] cell_list(m, offset_cell(c, k)).contains(j) {
            let k = choose|k: int| 0 <= k < n && #[trigger] cell_list(m, offset_cell(c, k)).contains(
                j,
            );
            if k < n - 1 {
                assert(gather(m, c, (n - 1) as nat).contains(j));
            }
        }
    } else {
        assert(gather(m, c, n) =~= Seq::<usize>::empty());
    }
}

proof fn lemma_offset_index(k: int)
    requires
        0 <= k < 27,
    ensures
        -1 <= neighbor_offset(k).0 <= 1,
        -1 <= neighbor_offset(k).1 <= 1,
        -1 <= neighbor_offset(k).2 <= 1,
        k == 9 * (neighbor_offset(k).0 + 1) + 3 * (neighbor_offset(k).1 + 1) + (neighbor_offset(
            k,
        ).2 + 1),
{
}

/// The block is scanned with the x offset slowest and the z offset fastest,
/// each from -1 to 1: offset (p, q, r) is scanned as number
/// 9(p+1) + 3(q+1) + (r+1) of 27.
pub proof fn lemma_offset_of_index(p: int, q: int, r: int)
    requires
        -1 <= p <= 1,
        -1 <= q <= 1,
        -1 <= r <= 1,
    ensures
        neighbor_offset(9 * (p + 1) + 3 * (q + 1) + (r + 1)) == (p, q, r),
{
}

/// The block query over a filed grid finds exactly the balls whose cell is
/// adjacent to the queried cell, each of them once.
pub proof fn lemma_neighbors_of_filed(cells: Seq<Cell>, c: Cell, j: usize)
    requires
        cells.len() <= usize::MAX,
        interior_cell(c),
    ensures
        neighbor_list(filed(cells), c).contains(j) <==> (j < cells.len() && adjacent(
            cells[j as int],
            c,
        )),
        neighbor_list(filed(cells), c).no_duplicates(),
{
    let m = filed(cells);
    lemma_gather_contains(m, c, 27, j);
    if neighbor_list(m, c).contains(j) {
        let k = choose|k: int| 0 <= k < 27 && #[trigger] cell_list(m, offset_cell(c, k)).contains(j);
        lemma_filed_cell(cells, offset_cell(c, k), j);
        lemma_offset_index(k);
    }
    if j < cells.len() && adjacent(cells[j as int], c) {
        let a = cells[j as int];
        let k: int = 9 * (a.0 - c.0 + 1) + 3 * (a.1 - c.1 + 1) + (a.2 - c.2 + 1);
        lemma_offset_of_index(a.0 - c.0, a.1 - c.1, a.2 - c.2);
        assert(offset_cell(c, k) == a);
        lemma_filed_cell(cells, a, j);
        assert(cell_list(m, offset_cell(c, k)).contains(j));
    }
    lemma_gather_no_duplicates(cells, c, 27);
}

proof fn lemma_gather_no_duplicates(cells: Seq<Cell>, c: Cell, n: nat)
    requires
        cells.len() <= usize::MAX,
        interior_cell(c),
        n <= 27,
    ensures
        gather(filed(cells), c, n).no_duplicates(),
    decreases n,
{
    let m = filed(cells);
    if n > 0 {
        lemma_gather_no_duplicates(cells, c, (n - 1) as nat);
        let a = gather(m, c, (n - 1) as nat);
        let b = cell_list(m, offset_cell(c, n - 1));
        lemma_filed_cell(cells, offset_cell(c, n - 1), 0);
        assert forall|x: usize| a.contains(x) implies !b.contains(x) by {
            lemma_gather_contains(m, c, (n - 1) as nat, x);
            let k = choose|k: int|
                0 <= k < n - 1 && #[trigger] cell_list(m, offset_cell(c, k)).contains(x);
            lemma_filed_cell(cells, offset_cell(c, k), x);
            lemma_filed_cell(cells, offset_cell(c, n - 1), x);
            lemma_offset_index(k);
            lemma_offset_index(n - 1);
            if b.contains(x) {
                assert(offset_cell(c, k) == offset_cell(c, n - 1));
                assert(false);
            }
        }
        let s = a + b;
        assert forall|i1: int, i2: int| 0 <= i1 < s.len() && 0 <= i2 < s.len() && i1 != i2 implies s[i1]
            != s[i2] by {
            if i1 < a.len() && i2 >= a.len() {
                assert(a.contains(s[i1]));
                assert(b[i2 - a.len()] == s[i2]);
            } else if i2 < a.len() && i1 >= a.len() {
                assert(a.contains(s[i2]));
                assert(b[i1 - a.len()] == s[i1]);
            } else if i1 >= a.len() {
                assert(b[i1 - a.len()] != b[i2 - a.len()]);
            }
        }
    }
}

/// The partners of ball `index` around `cell` in a filed grid are exactly the
/// later balls whose cell is adjacent to `cell`, each of them once.
pub proof fn lemma_partners_of_filed(cells: Seq<Cell>, index: usize, c: Cell, j: usize)
    requires
        cells.len() <= usize::MAX,
        interior_cell(c),
    ensures
        later_than(neighbor_list(filed(cells), c), index).contains(j) <==> (index < j
            < cells.len() && adjacent(cells[j as int], c)),
        later_than(neighbor_list(filed(cells), c), index).no_duplicates(),
{
    lemma_neighbors_of_filed(cells, c, j);
    lemma_later_than(neighbor_list(filed(cells), c), index, j);
}

proof fn lemma_later_than(s: Seq<usize>, i: usize, j: usize)
    requires
        s.no_duplicates(),
    ensures
        later_than(s, i).contains(j) <==> (s.contains(j) && j > i),
        later_than(s, i).no_duplicates(),
        forall|x: usize| #[trigger] later_than(s, i).contains(x) ==> s.contains(x),
    decreases s.len(),
{
    if s.len() > 0 {
        let rest = s.drop_last();
        assert(rest.no_duplicates());
        lemma_later_than(rest, i, j);
        lemma_later_than(rest, i, s.last());
        let r = later_than(rest, i);
        assert forall|x: usize| #[trigger] later_than(s, i).contains(x) implies s.contains(x) by {
            if r.contains(x) {
                let k = choose|k: int| 0 <= k < rest.len() && rest[k] == x;
                assert(s[k] == x);
            } else {
                assert(x == s.last());
            }
        }
        if s.contains(j) && j > i {
            let k = choose|k: int| 0 <= k < s.len() && s[k] == j;
            if k < rest.len() {
                assert(rest[k] == j);
            } else {
                assert(later_than(s, i)[r.len() as int] == j);
            }
        }
        if later_than(s, i).contains(j) && !r.contains(j) {
            assert(j == s.last());
        }
        if r.contains(j) {
            let k = choose|k: int| 0 <= k < r.len() && r[k] == j;
            if s.last() > i {
                assert(later_than(s, i)[k] == j);
            }
        }
        if s.last() > i {
            assert(!rest.contains(s.last())) by {
                if rest.contains(s.last()) {
                    let k = choose|k: int| 0 <= k < rest.len() && rest[k] == s.last();
                    assert(s[k] == s[s.len() - 1]);
                }
            }
            assert(!r.contains(s.last()));
        }
    }
}

/// Within one sweep in which every ball is queried at the cell it was filed
/// under, each pair of balls in adjacent cells comes up exactly once: the
/// lower index finds the higher one, never the other way round.
pub proof fn lemma_each_pair_once(cells: Seq<Cell>, i: usize, j: usize)
    requires
        cells.len() <= usize::MAX,
        i < j < cells.len(),
        interior_cell(cells[i as int]),
        interior_cell(cells[j as int]),
    ensures
        later_than(neighbor_list(filed(cells), cells[i as int]), i).contains(j) <==> adjacent(
            cells[i as int],
            cells[j as int],
        ),
        !later_than(neighbor_list(filed(cells), cells[j as int]), j).contains(i),
{
    lemma_partners_of_filed(cells, i, cells[i as int], j);
    lemma_partners_of_filed(cells, j, cells[j as int], i);
}

/// How often `x` occurs in `s`.
pub open spec fn occurrences(s: Seq<usize>, x: usize) -> nat
    decreases s.len(),
{
    if s.len() == 0 {
        0
    } else {
        occurrences(s.drop_last(), x) + if s.last() == x {
            1nat
        } else {
            0nat
        }
    }
}

/// The grid after inserting `ops[0]`, `ops[1]`, ... in turn into an empty
/// grid, each as `(index, cell)`.
pub open spec fn inserted(ops: Seq<(usize, Cell)>) -> Map<Cell, Seq<usize>>
    decreases ops.len(),
{
    if ops.len() == 0 {
        Map::empty()
    } else {
        let m = inserted(ops.drop_last());
        let (i, c) = ops.last();
        m.insert(c, cell_list(m, c).push(i))
    }
}

/// How many of the inserts put index `i` into a cell adjacent to `c`.
pub open spec fn adjacent_inserts(ops: Seq<(usize, Cell)>, c: Cell, i: usize) -> nat
    decreases ops.len(),
{
    if ops.len() == 0 {
        0
    } else {
        adjacent_inserts(ops.drop_last(), c, i) + if ops.last().0 == i && adjacent(
            ops.last().1,
            c,
        ) {
            1nat
        } else {
            0nat
        }
    }
}

/// How many of the first `n` offsets lead from `c` to `a`.
spec fn hits(c: Cell, a: Cell, n: nat) -> nat
    decreases n,
{
    if n == 0 {
        0
    } else {
        hits(c, a, (n - 1) as nat) + if offset_cell(c, n - 1) == a {
            1nat
        } else {
            0nat
        }
    }
}

proof fn lemma_occurrences_concat(a: Seq<usize>, b: Seq<usize>, x: usize)
    ensures
        occurrences(a + b, x) == occurrences(a, x) + occurrences(b, x),
    decreases b.len(),
{
    if b.len() == 0 {
        assert(a + b == a);
    } else {
        lemma_occurrences_concat(a, b.drop_last(), x);
        assert((a + b).drop_last() == a + b.drop_last());
        assert((a + b).last() == b.last());
    }
}

proof fn lemma_occurrences_contains(s: Seq<usize>, x: usize)
    ensures
        s.contains(x) <==> occurrences(s, x) > 0,
    decreases s.len(),
{
    if s.len() > 0 {
        let rest = s.drop_last();
        lemma_occurrences_contains(rest, x);
        if rest.contains(x) {
            let k = choose|k: int| 0 <= k < rest.len() && rest[k] == x;
            assert(s[k] == x);
        }
        if s.contains(x) && s.last() != x {
            let k = choose|k: int| 0 <= k < s.len() && s[k] == x;
            assert(rest[k] == x);
        }
    }
}

proof fn lemma_hits(c: Cell, a: Cell, n: nat)
    requires
        interior_cell(c),
        n <= 27,
    ensures
        hits(c, a, n) == if exists|k: int| 0 <= k < n && #[trigger] offset_cell(c, k) == a {
            1nat
        } else {
            0nat
        },
    decreases n,
{
    if n > 0 {
        lemma_hits(c, a, (n - 1) as nat);
        if offset_cell(c, n - 1) == a {
            assert forall|k: int| 0 <= k < n - 1 implies #[trigger] offset_cell(c, k) != a by {
                lemma_offset_index(k);
                lemma_offset_index(n - 1);
            }
        }
        if exists|k: int| 0 <= k < n && #[trigger] offset_cell(c, k) == a {
            let k = choose|k: int| 0 <= k < n && #[trigger] offset_cell(c, k) == a;
            if k < n - 1 {
                assert(exists|k: int| 0 <= k < n - 1 && #[trigger] offset_cell(c, k) == a);
            }
        }
    }
}

proof fn lemma_hits_block(c: Cell, a: Cell)
    requires
        interior_cell(c),
    ensures
        hits(c, a, 27) == if adjacent(a, c) {
            1nat
        } else {
            0nat
        },
{
    lemma_hits(c, a, 27);
    if exists|k: int| 0 <= k < 27 && #[trigger] offset_cell(c, k) == a {
        let k = choose|k: int| 0 <= k < 27 && #[trigger] offset_cell(c, k) == a;
        lemma_offset_index(k);
    }
    if adjacent(a, c) {
        let k: int = 9 * (a.0 - c.0 + 1) + 3 * (a.1 - c.1 + 1) + (a.2 - c.2 + 1);
        lemma_offset_of_index(a.0 - c.0, a.1 - c.1, a.2 - c.2);
        assert(offset_cell(c, k) == a);
    }
}

proof fn lemma_gather_after_insert(
    m: Map<Cell, Seq<usize>>,
    a: Cell,
    j: usize,
    c: Cell,
    i: usize,
    n: nat,
)
    ensures
        occurrences(gather(m.insert(a, cell_list(m, a).push(j)), c, n), i) == occurrences(
            gather(m, c, n),
            i,
        ) + if j == i {
            hits(c, a, n)
        } else {
            0nat
        },
    decreases n,
{
    let m2 = m.insert(a, cell_list(m, a).push(j));
    if n > 0 {
        lemma_gather_after_insert(m, a, j, c, i, (n - 1) as nat);
        let d = offset_cell(c, n - 1);
        lemma_occurrences_concat(gather(m2, c, (n - 1) as nat), cell_list(m2, d), i);
        lemma_occurrences_concat(gather(m, c, (n - 1) as nat), cell_list(m, d), i);
        if d == a {
            assert(cell_list(m2, d) == cell_list(m, a).push(j));
            assert(cell_list(m, a).push(j).drop_last() == cell_list(m, a));
        } else {
            assert(cell_list(m2, d) == cell_list(m, d));
        }
    }
}

/// On any grid built by inserts into an empty grid, a block query finds each
/// index exactly as often as it was inserted into a cell adjacent to the
/// queried one, and finds nothing else.
pub proof fn lemma_neighbors_of_inserts(ops: Seq<(usize, Cell)>, c: Cell, i: usize)
    requires
        interior_cell(c),
    ensures
        occurrences(neighbor_list(inserted(ops), c), i) == adjacent_inserts(ops, c, i),
        neighbor_list(inserted(ops), c).contains(i) <==> adjacent_inserts(ops, c, i) > 0,
    decreases ops.len(),
{
    lemma_occurrences_contains(neighbor_list(inserted(ops), c), i);
    if ops.len() == 0 {
        assert forall|n: nat| n <= 27 implies #[trigger] gather(inserted(ops), c, n).len() == 0 by {
            lemma_gather_empty(inserted(ops), c, n);
        }
        assert(neighbor_list(inserted(ops), c) =~= Seq::<usize>::empty());
    } else {
        let rest = ops.drop_last();
        lemma_neighbors_of_inserts(rest, c, i);
        let (j, a) = ops.last();
        lemma_gather_after_insert(inserted(rest), a, j, c, i, 27);
        lemma_hits_block(c, a);
    }
}

proof fn lemma_gather_empty(m: Map<Cell, Seq<usize>>, c: Cell, n: nat)
    requires
        m == Map::<Cell, Seq<usize>>::empty(),
    ensures
        gather(m, c, n).len() == 0,
    decreases n,
{
    if n > 0 {
        lemma_gather_empty(m, c, (n - 1) as nat);
    }
}

/// One more insert on a grid built by `ops` gives the grid built by `ops`
/// followed by that insert: with `SpatialGrid::new` giving the empty grid and
/// `SpatialGrid::insert` adding one entry, `inserted` is the view of a grid
/// after any run of inserts.
pub proof fn lemma_insert_extends(ops: Seq<(usize, Cell)>, i: usize, c: Cell)
    ensures
        inserted(ops.push((i, c))) == inserted(ops).insert(c, cell_list(inserted(ops), c).push(i)),
{
    assert(ops.push((i, c)).drop_last() == ops);
}

} // verus!
