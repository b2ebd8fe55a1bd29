//! Face lists of the combined mesh.
//!
//! Every point block of the city is a copy of the footprint's points, so the
//! faces of block `k` are the footprint's faces with every index moved past
//! the `k` blocks before it. Footprint faces index points from 0; the faces
//! of the combined mesh index them from 1.

use crate::layout::block_total;
use vstd::arithmetic::div_mod::lemma_fundamental_div_mod_converse;
use vstd::prelude::*;

verus! {

/// One corner of a face: a position index, and optionally a texture index
/// and a normal index.
#[derive(Clone, Copy, Debug, PartialEq, Eq)]
pub struct IndexTuple(pub usize, pub Option<usize>, pub Option<usize>);

/// `v + offset` where `v` is present.
pub open spec fn shift_index(v: Option<usize>, offset: int) -> Option<usize> {
    match v {
        Some(i) => Some((i + offset) as usize),
        None => None,
    }
}

/// `v + offset` fits in a `usize` where `v` is present.
pub open spec fn index_fits(v: Option<usize>, offset: int) -> bool {
    match v {
        Some(i) => i + offset <= usize::MAX,
        None => true,
    }
}

/// Every index of `t`, moved by `offset`.
pub open spec fn shift_tuple(t: IndexTuple, offset: int) -> IndexTuple {
    IndexTuple((t.0 + offset) as usize, shift_index(t.1, offset), shift_index(t.2, offset))
}

/// Every index of `t` can be moved by `offset` without overflow.
pub open spec fn tuple_fits(t: IndexTuple, offset: int) -> bool {
    t.0 + offset <= usize::MAX && index_fits(t.1, offset) && index_fits(t.2, offset)
}

/// Every corner of `face`, moved by `offset`.
pub open spec fn shift_face(face: Seq<IndexTuple>, offset: int) -> Seq<IndexTuple> {
    face.map_values(|t: IndexTuple| shift_tuple(t, offset))
}

/// What is added to the footprint's indices in block `k` of footprints of
/// `n` points.
pub open spec fn block_offset(n: int, k: int) -> int {
    n * k + 1
}

fn shift_option(v: Option<usize>, offset: usize) -> (r: Option<usize>)
    requires
        index_fits(v, offset as int),
    ensures
        r == shift_index(v, offset as int),
{
    match v {
        Some(i) => Some(i + offset),
        None => None,
    }
}

/// Copy of `face` with every index moved by `offset`.
pub fn offset_face(face: &Vec<IndexTuple>, offset: usize) -> (r: Vec<IndexTuple>)
    requires
        forall|m: int| 0 <= m < face.len() ==> tuple_fits(#[trigger] face[m], offset as int),
    ensures
        r@ == shift_face(face@, offset as int),
{
    let mut r: Vec<IndexTuple> = Vec::new();
    let mut m: usize = 0;
    while m < face.len()
        invariant
            m <= face.len(),
            forall|a: int| 0 <= a < face.len() ==> tuple_fits(#[trigger] face[a], offset as int),
            r@ == shift_face(face@.subrange(0, m as int), offset as int),
        decreases face.len() - m,
    {
        let t = face[m];
        let moved = IndexTuple(t.0 + offset, shift_option(t.1, offset), shift_option(t.2, offset));
        r.push(moved);
        proof {
            assert(face@.subrange(0, m + 1) =~= face@.subrange(0, m as int).push(t));
        }
        m = m + 1;
        proof {
            assert(r@ =~= shift_face(face@.subrange(0, m as int), offset as int));
        }
    }
    proof {
        assert(face@.subrange(0, m as int) =~= face@);
    }
    r
}

/// Faces of the combined mesh of a city of `layers` rings: for each block
/// `k` in output order, the footprint's faces with every index moved by
/// `n_positions * k + 1`. Face `q` of the result is footprint face
/// `q % faces.len()` of block `q / faces.len()`.
pub fn copy_faces(faces: &Vec<Vec<IndexTuple>>, n_positions: usize, layers: usize) -> (r: Vec<
    Vec<IndexTuple>,
>)
    requires
        layers >= 1,
        block_total(layers as int) <= usize::MAX,
        block_offset(n_positions as int, block_total(layers as int) - 1) <= usize::MAX,
        forall|j: int, m: int|
            0 <= j < faces.len() && 0 <= m < faces[j].len() ==> tuple_fits(
                #[trigger] faces[j][m],
                block_offset(n_positions as int, block_total(layers as int) - 1),
            ),
    ensures
        r.len() == block_total(layers as int) * faces.len(),
        forall|q: int|
            0 <= q < r.len() ==> #[trigger] r[q]@ == shift_face(
                faces[q % faces.len() as int]@,
                block_offset(n_positions as int, q / faces.len() as int),
            ),
{
    proof {
        assert(2 * layers <= usize::MAX) by (nonlinear_arith)
            requires
                layers >= 1,
                (2 * layers - 1) * (2 * layers - 1) <= usize::MAX,
        ;
    }
    let side: usize = 2 * layers - 1;
    let blocks: usize = side * side;
    let ghost last = block_offset(n_positions as int, blocks - 1);
    let count = faces.len();
    let mut r: Vec<Vec<IndexTuple>> = Vec::new();
    let mut k: usize = 0;
    while k < blocks
        invariant
            k <= blocks,
            blocks == block_total(layers as int),
            count == faces.len(),
            last == block_offset(n_positions as int, blocks - 1),
            last <= usize::MAX,
            forall|j: int, m: int|
                0 <= j < faces.len() && 0 <= m < faces[j].len() ==> tuple_fits(
                    #[trigger] faces[j][m],
                    last,
                ),
            r.len() == k * count,
            forall|q: int|
                0 <= q < r.len() ==> #[trigger] r[q]@ == shift_face(
                    faces[q % count as int]@,
                    block_offset(n_positions as int, q / count as int),
                ),
        decreases blocks - k,
    {
        proof {
            assert(n_positions * k <= n_positions * (blocks - 1)) by (nonlinear_arith)
                requires
                    k < blocks,
            ;
        }
        let offset: usize = n_positions * k + 1;
        let mut j: usize = 0;
        while j < count
            invariant
                k < blocks,
                j <= count,
                count == faces.len(),
                offset == block_offset(n_positions as int, k as int),
                offset <= last,
                forall|a: int, m: int|
                    0 <= a < faces.len() && 0 <= m < faces[a].len() ==> tuple_fits(
                        #[trigger] faces[a][m],
                        last,
                    ),
                r.len() == k * count + j,
                forall|q: int|
                    0 <= q < r.len() ==> #[trigger] r[q]@ == shift_face(
                        faces[q % count as int]@,
                        block_offset(n_positions as int, q / count as int),
                    ),
            decreases count - j,
        {
            proof {
                assert forall|m: int| 0 <= m < faces[j as int].len() implies tuple_fits(
                    #[trigger] faces[j as int][m],
                    offset as int,
                ) by {
                    assert(tuple_fits(faces[j as int][m], last));
                }
            }
            let moved = offset_face(&faces[j], offset);
            proof {
                lemma_fundamental_div_mod_converse(
                    (k * count + j) as int,
                    count as int,
                    k as int,
                    j as int,
                );
            }
            r.push(moved);
            j = j + 1;
        }
        proof {
            assert((k + 1) * count == k * count + count) by (nonlinear_arith);
        }
        k = k + 1;
    }
    r
}

/// Block `k` of footprints of `n` points holds the 1-based indices
/// `n * k + 1 ..= n * k + n`: the ranges of two different blocks never share
/// an index.
pub proof fn lemma_block_ranges_disjoint(n: int, k1: int, k2: int, x: int)
    requires
        n >= 0,
        k1 >= 0,
        k2 >= 0,
        k1 != k2,
    ensures
        !(block_offset(n, k1) <= x < block_offset(n, k1) + n && block_offset(n, k2) <= x
            < block_offset(n, k2) + n),
{
    if k1 < k2 {
        assert(n * k1 + n <= n * k2) by (nonlinear_arith)
            requires
                k1 < k2,
                n >= 0,
        ;
    } else {
        assert(n * k2 + n <= n * k1) by (nonlinear_arith)
            requires
                k2 < k1,
                n >= 0,
        ;
    }
}

/// A footprint index `i < n` moved into block `k` of `blocks` blocks lands in
/// that block's range, and so within `1 ..= n * blocks`, the 1-based
/// indices of the combined points.
pub proof fn lemma_remapped_index_range(n: int, blocks: int, k: int, i: int)
    requires
        0 <= i < n,
        0 <= k < blocks,
    ensures
        block_offset(n, k) <= i + block_offset(n, k) < block_offset(n, k) + n,
        1 <= i + block_offset(n, k) <= n * blocks,
{
    assert(n * k + n <= n * blocks) by (nonlinear_arith)
        requires
            0 <= k < blocks,
            n >= 0,
    ;
    assert(n * k >= 0) by (nonlinear_arith)
        requires
            0 <= k,
            n >= 0,
    ;
}

} // verus!
