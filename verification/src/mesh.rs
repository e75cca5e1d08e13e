use vstd::prelude::*;

verus! {

/// What a mesh primitive contributes to the merged buffers: how many vertices
/// it adds, and its own index list, numbered from its first vertex, where it
/// has one.
pub struct PrimitiveData {
    pub vertex_count: usize,
    pub indices: Option<Vec<u32>>,
}

/// The number of vertices of the first `n` primitives.
pub open spec fn vertices_before(prims: Seq<PrimitiveData>, n: int) -> int
    decreases n,
{
    if n <= 0 {
        0
    } else {
        vertices_before(prims, n - 1) + prims[n - 1].vertex_count
    }
}

/// The number that primitive `n`'s indices are shifted by: the count of the
/// vertices before it, as a `u32`, that is modulo 2^32.
pub open spec fn base_index(prims: Seq<PrimitiveData>, n: int) -> int {
    vertices_before(prims, n) % 0x1_0000_0000
}

/// The indices of primitive `n`, shifted by its base, or nothing where it has
/// no index list.
pub open spec fn rebased(prims: Seq<PrimitiveData>, n: int) -> Seq<u32> {
    match prims[n].indices {
        Some(local) => local@.map_values(|i: u32| (i + base_index(prims, n)) as u32),
        None => Seq::empty(),
    }
}

/// The merged index list of the first `n` primitives.
pub open spec fn merged(prims: Seq<PrimitiveData>, n: int) -> Seq<u32>
    decreases n,
{
    if n <= 0 {
        Seq::empty()
    } else {
        merged(prims, n - 1) + rebased(prims, n - 1)
    }
}

/// Whether every shifted index of every primitive stays within `u32`.
pub open spec fn rebase_fits(prims: Seq<PrimitiveData>) -> bool {
    forall|n: int, k: int|
        #![trigger prims[n].indices->0@[k]]
        0 <= n < prims.len() && prims[n].indices is Some && 0 <= k
            < prims[n].indices->0@.len() ==> prims[n].indices->0@[k] + base_index(prims, n)
            <= u32::MAX
}

proof fn lemma_vertices_before_monotone(prims: Seq<PrimitiveData>, a: int, b: int)
    requires
        0 <= a <= b,
    ensures
        vertices_before(prims, a) <= vertices_before(prims, b),
    decreases b - a,
{
    if a < b {
        lemma_vertices_before_monotone(prims, a, b - 1);
    }
}

/// Concatenates the index lists of the primitives, shifting each list by the
/// number of vertices that the earlier primitives contribute, so that every
/// index refers to the same vertex in the merged vertex list.
pub fn merge_primitive_indices(prims: &Vec<PrimitiveData>) -> (indices: Vec<u32>)
    requires
        vertices_before(prims@, prims@.len() as int) <= usize::MAX,
        rebase_fits(prims@),
    ensures
        indices@ == merged(prims@, prims@.len() as int),
{
    let mut indices: Vec<u32> = Vec::new();
    let mut vertex_total: usize = 0;
    let mut p: usize = 0;
    while p < prims.len()
        invariant
            p <= prims.len(),
            vertices_before(prims@, prims@.len() as int) <= usize::MAX,
            rebase_fits(prims@),
            vertex_total == vertices_before(prims@, p as int),
            indices@ == merged(prims@, p as int),
        decreases prims.len() - p,
    {
        let base: u32 = vertex_total as u32;
        proof {
            assert(base == (vertex_total as u64) % 0x1_0000_0000u64) by (bit_vector)
                requires
                    base == vertex_total as u32,
            ;
            assert(base == vertex_total as int % 0x1_0000_0000);
            assert(base == base_index(prims@, p as int));
            lemma_vertices_before_monotone(prims@, p as int + 1, prims@.len() as int);
        }
        let ghost start = indices@;
        match &prims[p].indices {
            Some(local) => {
                let mut k: usize = 0;
                while k < local.len()
                    invariant
                        k <= local.len(),
                        rebase_fits(prims@),
                        p < prims@.len(),
                        prims@[p as int].indices == Some(*local),
                        base == base_index(prims@, p as int),
                        indices@ == start + local@.take(k as int).map_values(
                            |i: u32| (i + base_index(prims@, p as int)) as u32,
                        ),
                    decreases local.len() - k,
                {
                    assert(local@[k as int] + base <= u32::MAX) by {
                        assert(prims@[p as int].indices->0@[k as int] == local@[k as int]);
                    }
                    indices.push(local[k] + base);
                    assert(local@.take(k as int + 1).map_values(
                        |i: u32| (i + base_index(prims@, p as int)) as u32,
                    ) =~= local@.take(k as int).map_values(
                        |i: u32| (i + base_index(prims@, p as int)) as u32,
                    ).push((local@[k as int] + base) as u32));
                    k = k + 1;
                }
                assert(local@.take(local.len() as int) == local@);
            },
            None => {
                assert(rebased(prims@, p as int) =~= Seq::<u32>::empty());
            },
        }
        assert(indices@ =~= merged(prims@, p as int + 1));
        vertex_total = vertex_total + prims[p].vertex_count;
        p = p + 1;
    }
    indices
}

/// Where every primitive's own indices lie below its vertex count and the
/// merged vertex list has fewer than 2^32 vertices, the `k`-th index of
/// primitive `n` becomes that index plus the number of earlier vertices: it
/// points into the primitive's own vertices, and so below the total count.
pub proof fn lemma_merged_indices_in_range(prims: Seq<PrimitiveData>, n: int, k: int)
    requires
        vertices_before(prims, prims.len() as int) < 0x1_0000_0000,
        forall|m: int, j: int|
            #![trigger prims[m].indices->0@[j]]
            0 <= m < prims.len() && prims[m].indices is Some && 0 <= j
                < prims[m].indices->0@.len() ==> prims[m].indices->0@[j] < prims[m].vertex_count,
        0 <= n < prims.len(),
        prims[n].indices is Some,
        0 <= k < prims[n].indices->0@.len(),
    ensures
        rebased(prims, n)[k] == vertices_before(prims, n) + prims[n].indices->0@[k],
        vertices_before(prims, n) <= rebased(prims, n)[k] < vertices_before(prims, n + 1),
        rebased(prims, n)[k] < vertices_before(prims, prims.len() as int),
{
    lemma_vertices_before_monotone(prims, n + 1, prims.len() as int);
    lemma_vertices_before_monotone(prims, 0, n);
    assert(base_index(prims, n) == vertices_before(prims, n));
}

/// The number of indices of the first `n` primitives, counted in their own
/// lists.
pub open spec fn index_count(prims: Seq<PrimitiveData>, n: int) -> int
    decreases n,
{
    if n <= 0 {
        0
    } else {
        index_count(prims, n - 1) + match prims[n - 1].indices {
            Some(local) => local@.len() as int,
            None => 0,
        }
    }
}

proof fn lemma_index_count_monotone(prims: Seq<PrimitiveData>, a: int, b: int)
    requires
        0 <= a <= b,
    ensures
        index_count(prims, a) <= index_count(prims, b),
    decreases b - a,
{
    if a < b {
        lemma_index_count_monotone(prims, a, b - 1);
    }
}

/// Merging keeps every index of every primitive: the merged list of the first
/// `total` primitives is as long as all their index lists together, and where
/// no shifted index overflows, the `k`-th index of primitive `n` sits after
/// the indices of the primitives before it and equals that index plus the
/// number of earlier vertices, modulo 2^32.
pub proof fn lemma_merge_keeps_every_index(prims: Seq<PrimitiveData>, total: int, n: int, k: int)
    requires
        0 <= total <= prims.len(),
    ensures
        merged(prims, total).len() == index_count(prims, total),
        rebase_fits(prims) && 0 <= n < total && prims[n].indices is Some && 0 <= k
            < prims[n].indices->0@.len() ==> merged(prims, total)[index_count(prims, n) + k]
            == prims[n].indices->0@[k] + vertices_before(prims, n) % 0x1_0000_0000,
    decreases total,
{
    if total > 0 {
        lemma_merge_keeps_every_index(prims, total - 1, n, k);
        if rebase_fits(prims) && 0 <= n < total && prims[n].indices is Some && 0 <= k
            < prims[n].indices->0@.len() {
            let local = prims[n].indices->0@;
            lemma_index_count_monotone(prims, 0, n);
            if n < total - 1 {
                lemma_index_count_monotone(prims, n + 1, total - 1);
                assert(index_count(prims, n + 1) == index_count(prims, n) + local.len());
                let i = index_count(prims, n) + k;
                assert(i < merged(prims, total - 1).len());
                assert(merged(prims, total) == merged(prims, total - 1) + rebased(prims, total - 1));
                assert(merged(prims, total)[i] == merged(prims, total - 1)[i]);
            } else {
                assert(prims[n].indices->0@[k] + base_index(prims, n) <= u32::MAX);
                let r = rebased(prims, n);
                assert(r == local.map_values(|i: u32| (i + base_index(prims, n)) as u32));
                assert(r[k] == (local[k] + base_index(prims, n)) as u32);
                assert(r[k] == prims[n].indices->0@[k] + base_index(prims, n));
                let i = index_count(prims, n) + k;
                assert(merged(prims, total) == merged(prims, total - 1) + r);
                assert(merged(prims, total)[i] == r[k]);
            }
        }
    }
}

} // verus!
