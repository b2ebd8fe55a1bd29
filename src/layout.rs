//! Ring layout of the duplicated footprints.
//!
//! The base footprint sits at the centre (layer 0). Layer `l >= 1` is the
//! square ring of grid cells at Chebyshev distance `l` from the centre; it
//! holds `8 * l` duplicates. All duplicates of all layers are numbered by one
//! flat index, ring after ring, so that any of them can be found from its
//! index alone.

use vstd::prelude::*;
use vstd::set_lib::{lemma_int_range, set_int_range};

verus! {

/// Flat index of the first duplicate of ring `layer`: the number of
/// duplicates on the rings inside it.
pub open spec fn ring_start(layer: int) -> int {
    4 * layer * (layer - 1)
}

/// Number of point blocks for `layers` rings, the centre included.
pub open spec fn block_total(layers: int) -> int {
    (2 * layers - 1) * (2 * layers - 1)
}

/// The integer square root: the largest `r` with `r * r <= n`.
pub open spec fn floor_sqrt(n: nat) -> nat
    decreases n,
{
    if n == 0 {
        0
    } else {
        let r = floor_sqrt((n - 1) as nat);
        if (r + 1) * (r + 1) <= n {
            r + 1
        } else {
            r
        }
    }
}

/// Ring of the duplicate with flat index `i`, in closed form.
pub open spec fn layer_of(i: nat) -> nat {
    ((floor_sqrt(i + 1) + 1) / 2) as nat
}

/// Position of the duplicate with flat index `i` along its ring.
pub open spec fn offset_of(i: nat) -> int {
    i - ring_start(layer_of(i) as int)
}

proof fn lemma_square_le(a: int, b: int)
    requires
        0 <= a <= b,
    ensures
        a * a <= b * b,
{
    assert(a * a <= b * b) by (nonlinear_arith)
        requires
            0 <= a <= b,
    ;
}

/// `floor_sqrt` meets its defining bounds.
pub proof fn lemma_floor_sqrt(n: nat)
    ensures
        floor_sqrt(n) * floor_sqrt(n) <= n < (floor_sqrt(n) + 1) * (floor_sqrt(n) + 1),
    decreases n,
{
    if n > 0 {
        let r = floor_sqrt((n - 1) as nat);
        lemma_floor_sqrt((n - 1) as nat);
        assert((r + 1) * (r + 1) < (r + 2) * (r + 2)) by (nonlinear_arith)
            requires
                r >= 0,
        ;
        let q = floor_sqrt(n) as int;
        if (r + 1) * (r + 1) <= n {
            assert(q == r + 1);
            assert(q * q <= n < (q + 1) * (q + 1)) by (nonlinear_arith)
                requires
                    q == r + 1,
                    (r + 1) * (r + 1) <= n,
                    n - 1 < (r + 1) * (r + 1),
                    (r + 1) * (r + 1) < (r + 2) * (r + 2),
            ;
        } else {
            assert(q == r);
        }
    } else {
        assert(floor_sqrt(n) == 0);
        assert(0 * 0 <= 0 < (0 + 1) * (0 + 1)) by (nonlinear_arith);
    }
}

/// Only one number meets the bounds of `floor_sqrt`.
proof fn lemma_floor_sqrt_unique(n: nat, r: nat)
    requires
        r * r <= n < (r + 1) * (r + 1),
    ensures
        r == floor_sqrt(n),
{
    let s = floor_sqrt(n);
    lemma_floor_sqrt(n);
    if r < s {
        lemma_square_le(r + 1 as int, s as int);
    } else if s < r {
        lemma_square_le(s + 1 as int, r as int);
    }
}

/// Rings further out start at larger flat indices.
proof fn lemma_ring_start_monotone(a: int, b: int)
    requires
        0 <= a <= b,
    ensures
        ring_start(a) <= ring_start(b),
{
    assert(4 * a * (a - 1) <= 4 * b * (b - 1)) by (nonlinear_arith)
        requires
            0 <= a <= b,
    ;
}

/// Ring `layer` holds the `8 * layer` indices up to the start of the next.
proof fn lemma_ring_start_step(layer: int)
    ensures
        ring_start(layer + 1) == ring_start(layer) + 8 * layer,
{
    assert(4 * (layer + 1) * layer == 4 * layer * (layer - 1) + 8 * layer) by (nonlinear_arith);
}

/// The closed form puts every flat index on a ring `>= 1`, inside that
/// ring's range of indices.
pub proof fn lemma_layer_of_bounds(i: nat)
    ensures
        layer_of(i) >= 1,
        ring_start(layer_of(i) as int) <= i < ring_start(layer_of(i) + 1 as int),
        0 <= offset_of(i) < 8 * layer_of(i),
{
    let s = floor_sqrt(i + 1) as int;
    let l = layer_of(i) as int;
    lemma_floor_sqrt(i + 1);
    lemma_ring_start_step(l);
    assert(s >= 1) by (nonlinear_arith)
        requires
            0 <= s,
            i + 1 < (s + 1) * (s + 1),
            i >= 0,
    ;
    if s % 2 == 1 {
        assert(s == 2 * l - 1);
        assert(ring_start(l) <= i && i < ring_start(l) + 8 * l) by (nonlinear_arith)
            requires
                s == 2 * l - 1,
                s * s <= i + 1,
                i + 1 < (s + 1) * (s + 1),
                l >= 1,
        ;
    } else {
        assert(s == 2 * l);
        assert(ring_start(l) <= i && i < ring_start(l) + 8 * l) by (nonlinear_arith)
            requires
                s == 2 * l,
                s * s <= i + 1,
                i + 1 < (s + 1) * (s + 1),
                l >= 1,
        ;
    }
}

/// Decoding a flat index and encoding the result gives the index back.
pub proof fn lemma_encode_decode(i: nat)
    ensures
        layer_of(i) >= 1,
        0 <= offset_of(i) < 8 * layer_of(i),
        ring_start(layer_of(i) as int) + offset_of(i) == i,
{
    lemma_layer_of_bounds(i);
}

/// Encoding a ring and a position on it, then decoding, gives them back.
pub proof fn lemma_decode_encode(layer: nat, offset: nat)
    requires
        layer >= 1,
        offset < 8 * layer,
    ensures
        layer_of((ring_start(layer as int) + offset) as nat) == layer,
        offset_of((ring_start(layer as int) + offset) as nat) == offset,
{
    lemma_ring_start_monotone(0, layer as int);
    let i = (ring_start(layer as int) + offset) as nat;
    let m = layer_of(i) as int;
    lemma_layer_of_bounds(i);
    lemma_ring_start_step(layer as int);
    if m < layer {
        lemma_ring_start_monotone(m + 1, layer as int);
    } else if layer < m {
        lemma_ring_start_monotone(layer + 1 as int, m);
    }
}

/// Grid cell of position `offset` on ring `layer`, in units of one
/// footprint plus spacing. The walk starts at `(layer, -layer)` and visits
/// the corners `(layer, layer)`, `(-layer, layer)` and `(-layer, -layer)` at
/// offsets `2 * layer`, `4 * layer` and `6 * layer`, one cell per step.
pub open spec fn ring_cell(layer: int, offset: int) -> (int, int) {
    if offset <= 2 * layer {
        (layer, offset - layer)
    } else if offset <= 4 * layer {
        (3 * layer - offset, layer)
    } else if offset <= 6 * layer {
        (-layer, 5 * layer - offset)
    } else {
        (offset - 7 * layer, -layer)
    }
}

/// Where one block of points goes: its ring (0 for the base footprint) and its
/// grid cell. The translation of the block is the cell times the footprint's
/// extents plus spacing.
#[derive(Clone, Copy, Debug, PartialEq, Eq)]
pub struct Placement {
    pub layer: u64,
    pub x: i64,
    pub y: i64,
}

/// The placement of the base footprint, at the centre.
pub open spec fn is_centre(p: Placement) -> bool {
    p.layer == 0 && p.x == 0 && p.y == 0
}

/// `p` is the placement of the duplicate with flat index `i`.
pub open spec fn is_placement_of(p: Placement, i: nat) -> bool {
    &&& p.layer == layer_of(i)
    &&& (p.x as int, p.y as int) == ring_cell(layer_of(i) as int, offset_of(i))
}

/// `c` lies on the square ring at Chebyshev distance `layer` from the centre.
pub open spec fn on_ring(c: (int, int), layer: int) -> bool {
    ||| (c.0 == layer || c.0 == -layer) && -layer <= c.1 <= layer
    ||| (c.1 == layer || c.1 == -layer) && -layer <= c.0 <= layer
}

/// `a` and `b` are neighbouring cells: they differ by one in one coordinate.
pub open spec fn adjacent(a: (int, int), b: (int, int)) -> bool {
    ||| a.0 == b.0 && (a.1 - b.1 == 1 || b.1 - a.1 == 1)
    ||| a.1 == b.1 && (a.0 - b.0 == 1 || b.0 - a.0 == 1)
}

/// Position on ring `layer` of a cell of that ring; undoes `ring_cell`.
pub open spec fn cell_offset(layer: int, c: (int, int)) -> int {
    if c.0 == layer {
        c.1 + layer
    } else if c.1 == layer {
        3 * layer - c.0
    } else if c.0 == -layer {
        5 * layer - c.1
    } else {
        c.0 + 7 * layer
    }
}

/// The integer square root of `n`.
pub fn floor_sqrt_u64(n: u64) -> (r: u64)
    ensures
        r == floor_sqrt(n as nat),
{
    let mut lo: u64 = 0;
    let mut hi: u64 = 0x1_0000_0000;
    assert(n < hi * hi) by (nonlinear_arith)
        requires
            hi == 0x1_0000_0000,
            n <= u64::MAX,
    ;
    while hi - lo > 1
        invariant
            lo < hi <= 0x1_0000_0000,
            lo * lo <= n,
            n < hi * hi,
        decreases hi - lo,
    {
        let mid: u64 = lo + (hi - lo) / 2;
        assert(mid * mid <= 0xffff_fffe_0000_0001) by (nonlinear_arith)
            requires
                mid < 0x1_0000_0000,
        ;
        if mid * mid <= n {
            lo = mid;
        } else {
            hi = mid;
        }
    }
    proof {
        lemma_floor_sqrt_unique(n as nat, lo as nat);
    }
    lo
}

/// The centre and the rings of `layers` rings (the centre counted as one)
/// make `(2 * layers - 1)^2` blocks.
pub proof fn lemma_block_total(layers: int)
    ensures
        1 + ring_start(layers) == block_total(layers),
{
    assert(1 + 4 * layers * (layers - 1) == (2 * layers - 1) * (2 * layers - 1)) by (nonlinear_arith);
}

/// Of the flat indices of a city of `layers` rings, ring `layer` gets
/// exactly the `8 * layer` consecutive ones that follow the rings inside it.
pub proof fn lemma_ring_members(layers: nat, layer: nat)
    requires
        1 <= layer < layers,
    ensures
        Set::new(|i: int| 0 <= i < ring_start(layers as int) && layer_of(i as nat) == layer)
            == set_int_range(ring_start(layer as int), ring_start(layer as int) + 8 * layer),
        set_int_range(ring_start(layer as int), ring_start(layer as int) + 8 * layer).len() == 8
            * layer,
{
    let lo = ring_start(layer as int);
    lemma_ring_start_step(layer as int);
    lemma_ring_start_monotone(layer + 1 as int, layers as int);
    lemma_ring_start_monotone(0, layer as int);
    assert forall|i: int| 0 <= i < ring_start(layers as int) && #[trigger] layer_of(i as nat) == layer
        implies lo <= i < lo + 8 * layer by {
        lemma_layer_of_bounds(i as nat);
    }
    assert forall|i: int| lo <= i < lo + 8 * layer implies 0 <= i < ring_start(layers as int)
        && #[trigger] layer_of(i as nat) == layer by {
        lemma_decode_encode(layer, (i - lo) as nat);
    }
    assert(Set::new(|i: int| 0 <= i < ring_start(layers as int) && layer_of(i as nat) == layer)
        =~= set_int_range(lo, lo + 8 * layer));
    lemma_int_range(lo, lo + 8 * layer);
}

/// The `8 * layer` positions of ring `layer` walk once round the ring: from
/// `(layer, -layer)` through the corners `(layer, layer)`, `(-layer, layer)`
/// and `(-layer, -layer)`, one neighbouring cell per step and back to the
/// start, never visiting a cell twice and missing none.
pub proof fn lemma_ring_walk(layer: int)
    requires
        layer >= 1,
    ensures
        ring_cell(layer, 0) == (layer, -layer),
        ring_cell(layer, 2 * layer) == (layer, layer),
        ring_cell(layer, 4 * layer) == (-layer, layer),
        ring_cell(layer, 6 * layer) == (-layer, -layer),
        forall|o: int| 0 <= o < 8 * layer ==> on_ring(#[trigger] ring_cell(layer, o), layer),
        forall|o: int|
            0 <= o < 8 * layer - 1 ==> adjacent(#[trigger] ring_cell(layer, o), ring_cell(layer, o + 1)),
        adjacent(ring_cell(layer, 8 * layer - 1), ring_cell(layer, 0)),
        forall|o: int| 0 <= o < 8 * layer ==> cell_offset(layer, #[trigger] ring_cell(layer, o)) == o,
        forall|o1: int, o2: int|
            0 <= o1 < 8 * layer && 0 <= o2 < 8 * layer && o1 != o2 ==> #[trigger] ring_cell(layer, o1)
                != #[trigger] ring_cell(layer, o2),
        forall|c: (int, int)|
            on_ring(c, layer) ==> 0 <= #[trigger] cell_offset(layer, c) < 8 * layer && ring_cell(
                layer,
                cell_offset(layer, c),
            ) == c,
{
    assert forall|o1: int, o2: int|
        0 <= o1 < 8 * layer && 0 <= o2 < 8 * layer && o1 != o2 implies #[trigger] ring_cell(layer, o1)
        != #[trigger] ring_cell(layer, o2) by {
        assert(cell_offset(layer, ring_cell(layer, o1)) == o1);
        assert(cell_offset(layer, ring_cell(layer, o2)) == o2);
    }
}

/// Decodes a flat duplicate index into its ring and its position on that
/// ring.
pub fn decode_index(index: u64) -> (r: (u64, u64))
    requires
        index < u64::MAX,
    ensures
        r.0 == layer_of(index as nat),
        r.1 == offset_of(index as nat),
        r.0 >= 1,
        r.1 < 8 * r.0,
{
    let s = floor_sqrt_u64(index + 1);
    proof {
        lemma_layer_of_bounds(index as nat);
        lemma_floor_sqrt(index as nat + 1);
        assert(s < 0x1_0000_0000) by (nonlinear_arith)
            requires
                s * s <= index + 1,
                index + 1 <= u64::MAX,
        ;
    }
    let layer: u64 = (s + 1) / 2;
    proof {
        assert(4 * layer * (layer - 1) <= index);
    }
    let offset: u64 = index - 4 * layer * (layer - 1);
    (layer, offset)
}

/// Flat index of position `offset` on ring `layer`.
pub fn encode_index(layer: u64, offset: u64) -> (r: u64)
    requires
        layer >= 1,
        offset < 8 * layer,
        ring_start(layer + 1) <= u64::MAX,
    ensures
        r == ring_start(layer as int) + offset,
{
    proof {
        lemma_ring_start_step(layer as int);
        lemma_ring_start_monotone(0, layer as int);
        assert(4 * layer * (layer - 1) == ring_start(layer as int)) by (nonlinear_arith);
    }
    4 * layer * (layer - 1) + offset
}

/// Grid cell of position `offset` on ring `layer`.
pub fn perimeter_cell(layer: u64, offset: u64) -> (r: (i64, i64))
    requires
        layer >= 1,
        offset < 8 * layer,
        8 * layer <= i64::MAX,
    ensures
        (r.0 as int, r.1 as int) == ring_cell(layer as int, offset as int),
{
    let l = layer as i64;
    let o = offset as i64;
    if o <= 2 * l {
        (l, o - l)
    } else if o <= 4 * l {
        (3 * l - o, l)
    } else if o <= 6 * l {
        (-l, 5 * l - o)
    } else {
        (o - 7 * l, -l)
    }
}

/// Placement of the duplicate with flat index `index`.
pub fn place(index: u64) -> (p: Placement)
    requires
        index < u64::MAX,
    ensures
        is_placement_of(p, index as nat),
{
    let (layer, offset) = decode_index(index);
    proof {
        lemma_floor_sqrt(index as nat + 1);
        let s = floor_sqrt(index as nat + 1);
        assert(s < 0x1_0000_0000) by (nonlinear_arith)
            requires
                s * s <= index + 1,
                index + 1 <= u64::MAX,
        ;
    }
    let (x, y) = perimeter_cell(layer, offset);
    Placement { layer, x, y }
}

/// Number of duplicates around the centre for `layers` rings, the centre
/// counted as one.
pub fn duplicate_count(layers: u64) -> (r: u64)
    requires
        layers >= 1,
        ring_start(layers as int) <= u64::MAX,
    ensures
        r == ring_start(layers as int),
{
    proof {
        assert(4 * layers <= u64::MAX) by (nonlinear_arith)
            requires
                layers >= 1,
                4 * layers * (layers - 1) <= u64::MAX,
        ;
        assert(4 * layers * (layers - 1) == ring_start(layers as int)) by (nonlinear_arith);
    }
    4 * layers * (layers - 1)
}

/// Number of point blocks for `layers` rings: `(2 * layers - 1)^2`.
pub fn block_count(layers: u64) -> (r: u64)
    requires
        layers >= 1,
        block_total(layers as int) <= u64::MAX,
    ensures
        r == block_total(layers as int),
{
    proof {
        assert(2 * layers <= u64::MAX) by (nonlinear_arith)
            requires
                layers >= 1,
                (2 * layers - 1) * (2 * layers - 1) <= u64::MAX,
        ;
    }
    let side: u64 = 2 * layers - 1;
    side * side
}

/// Placements of every block of a city of `layers` rings, in output order:
/// the base footprint first, then the duplicates by ascending flat index.
pub fn city_plan(layers: u64) -> (plan: Vec<Placement>)
    requires
        layers >= 1,
        ring_start(layers as int) < u64::MAX,
    ensures
        plan.len() == block_total(layers as int),
        is_centre(plan[0]),
        forall|i: int|
            0 <= i < ring_start(layers as int) ==> is_placement_of(#[trigger] plan[i + 1], i as nat),
{
    let total = duplicate_count(layers);
    let mut plan: Vec<Placement> = Vec::new();
    plan.push(Placement { layer: 0, x: 0, y: 0 });
    let mut index: u64 = 0;
    while index < total
        invariant
            index <= total,
            total == ring_start(layers as int),
            total < u64::MAX,
            plan.len() == index + 1,
            is_centre(plan[0]),
            forall|i: int| 0 <= i < index ==> is_placement_of(#[trigger] plan[i + 1], i as nat),
        decreases total - index,
    {
        let p = place(index);
        plan.push(p);
        index = index + 1;
    }
    proof {
        lemma_block_total(layers as int);
    }
    plan
}

} // verus!
