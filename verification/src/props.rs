//! The laws the library promises, stated once over the specification
//! functions that the public contracts speak of.
use vstd::prelude::*;
use crate::consts::MAX_BRICK_HEIGHT;
use crate::hex::{Axial, HexPathNode};
use crate::map::{
    feasible, field_spec, field_wf, field_wf_rank, flattened, parent_of, terrain_inv, tile_height,
    HexTileData,
};

verus! {

/// Rebuilding the direction field with the same terrain and the same goal
/// list yields identical labels: `update_dijkstra_hexmap` returns exactly
/// `field_spec` of its inputs, which is a function of those inputs alone.
pub proof fn lemma_rebuild_idempotent(
    t: Map<Axial, HexTileData>,
    goals: Seq<Axial>,
    f1: Map<Axial, HexPathNode>,
    f2: Map<Axial, HexPathNode>,
)
    requires
        f1 == field_spec(t, goals),
        f2 == field_spec(t, goals),
    ensures
        f1 == f2,
{
}

/// A direction label never connects two tiles whose heights differ by two
/// or more: every labeled tile's step toward its parent is feasible, so
/// the height difference is at most one in either direction.
pub proof fn lemma_height_delta(
    t: Map<Axial, HexTileData>,
    f: Map<Axial, HexPathNode>,
    a: Axial,
)
    requires
        field_wf(t, f),
        f.dom().contains(a),
        f[a] != HexPathNode::Goal,
    ensures
        feasible(t, parent_of(a, f[a]), a),
        tile_height(t, a) <= tile_height(t, parent_of(a, f[a])) + 1,
        tile_height(t, parent_of(a, f[a])) <= tile_height(t, a) + 1,
{
    let rank = choose|rank: Map<Axial, nat>| field_wf_rank(t, f, rank);
    assert(field_wf_rank(t, f, rank));
}

/// No tile at or above the obstacle ceiling is ever labeled via a step
/// into it: a tile carrying a direction label sits strictly below
/// `MAX_BRICK_HEIGHT`, whatever its height difference to the parent was.
pub proof fn lemma_ceiling(t: Map<Axial, HexTileData>, f: Map<Axial, HexPathNode>, a: Axial)
    requires
        field_wf(t, f),
        f.dom().contains(a),
        f[a] != HexPathNode::Goal,
    ensures
        tile_height(t, a) < MAX_BRICK_HEIGHT as int,
{
    let rank = choose|rank: Map<Axial, nat>| field_wf_rank(t, f, rank);
    assert(field_wf_rank(t, f, rank));
}

/// After `flatten_tile(hex, h)` the tile's wall height is exactly `h` and
/// its ground height never exceeds `h`.
pub proof fn lemma_flatten_monotone(t: Map<Axial, HexTileData>, hex: Axial, h: u8)
    requires
        terrain_inv(t),
    ensures
        flattened(t, hex, h).wall_height == h,
        flattened(t, hex, h).ground_height <= h,
{
    if t.dom().contains(hex) {
        assert(t[hex].inv());
    }
}

/// Flattening a tile to a height twice in a row leaves the same terrain
/// as flattening it once.
pub proof fn lemma_flatten_idempotent(t: Map<Axial, HexTileData>, hex: Axial, h: u8)
    requires
        terrain_inv(t),
    ensures
        ({
            let t1 = t.insert(hex, flattened(t, hex, h));
            t1.insert(hex, flattened(t1, hex, h)) == t1
        }),
{
    let t1 = t.insert(hex, flattened(t, hex, h));
    if t.dom().contains(hex) {
        assert(t[hex].inv());
    }
    assert(flattened(t1, hex, h) == t1[hex]);
    assert(t1.insert(hex, flattened(t1, hex, h)) =~= t1);
}

} // verus!
