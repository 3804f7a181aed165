//! The terrain model, the flood-fill direction-field builder, the path
//! reconstructor and the terrain editor.
use vstd::prelude::*;
use vstd::map::*;
use crate::consts::MAX_BRICK_HEIGHT;
use crate::consts::MAX_FLOOR_HEIGHT;
use crate::grid::HexGrid;
use crate::hex::{adjacent, is_label_delta, node_dq, node_dr, node_from_delta, Axial, HexPathNode};
use crate::rng::{gen_height, rng_from_seed};

verus! {

/// Per-tile terrain data. `wall_height` is the tile's effective traversal
/// height; `ground_height` never exceeds it in any tile the crate builds.
#[derive(Clone, Copy, PartialEq, Eq, Structural, Debug)]
pub struct HexTileData {
    pub ground_height: u8,
    pub wall_height: u8,
}

impl HexTileData {
    /// Ground height never above wall height.
    pub open spec fn inv(self) -> bool {
        self.ground_height <= self.wall_height
    }

    /// A floor tile: ground and wall share one height.
    pub fn new(height: u8) -> (t: HexTileData)
        ensures
            t.ground_height == height,
            t.wall_height == height,
            t.inv(),
    {
        HexTileData { ground_height: height, wall_height: height }
    }

    /// A freestanding wall profile: ground at zero, wall at `height`.
    pub fn new_wall(height: u8) -> (t: HexTileData)
        ensures
            t.ground_height == 0,
            t.wall_height == height,
            t.inv(),
    {
        HexTileData { ground_height: 0, wall_height: height }
    }

    /// The tile's effective height: its wall height.
    pub fn get_height(&self) -> (h: u8)
        ensures
            h == self.wall_height,
    {
        self.wall_height
    }
}

/// Every tile of a terrain satisfies the tile invariant.
pub open spec fn terrain_inv(t: Map<Axial, HexTileData>) -> bool {
    forall|a: Axial| #[trigger] t.dom().contains(a) ==> t[a].inv()
}

/// The effective height of the tile at `a`.
pub open spec fn tile_height(t: Map<Axial, HexTileData>, a: Axial) -> int {
    t[a].wall_height as int
}

/// The height rule for one step between tiles `a` and `b`: their heights
/// differ by at most one, and the taller of the two stays strictly below
/// the obstacle ceiling.
pub open spec fn heights_ok(t: Map<Axial, HexTileData>, a: Axial, b: Axial) -> bool {
    let ha = tile_height(t, a);
    let hb = tile_height(t, b);
    &&& (if ha >= hb {
        ha - hb
    } else {
        hb - ha
    }) <= 1
    &&& (if ha >= hb {
        ha
    } else {
        hb
    }) < MAX_BRICK_HEIGHT as int
}

/// A feasible step between `a` and `b`: both tiles exist in the terrain,
/// they are adjacent, and the height rule holds. Symmetric in `a` and `b`.
/// A goal tile absent from the terrain has no height, so no step touching
/// it is feasible: such a goal is labeled but never expanded.
pub open spec fn feasible(t: Map<Axial, HexTileData>, a: Axial, b: Axial) -> bool {
    &&& t.dom().contains(a)
    &&& t.dom().contains(b)
    &&& adjacent(a, b)
    &&& heights_ok(t, a, b)
}

/// `a` can be reached from some goal by a chain of at most `k` feasible
/// steps (a goal itself needs none).
pub open spec fn reachable_in(
    t: Map<Axial, HexTileData>,
    goals: Seq<Axial>,
    a: Axial,
    k: nat,
) -> bool
    decreases k,
{
    ||| goals.contains(a)
    ||| (k > 0 && exists|b: Axial|
        reachable_in(t, goals, b, (k - 1) as nat) && #[trigger] feasible(t, b, a))
}

/// `a` can be reached from some goal by a chain of feasible steps.
pub open spec fn reachable(t: Map<Axial, HexTileData>, goals: Seq<Axial>, a: Axial) -> bool {
    exists|k: nat| reachable_in(t, goals, a, k)
}

/// The tile `flatten_tile(hex, height)` leaves at `hex`: the wall moves to
/// `height`; the ground moves down with it only when the wall drops below
/// it; a missing tile becomes a freestanding wall profile.
pub open spec fn flattened(t: Map<Axial, HexTileData>, hex: Axial, height: u8) -> HexTileData {
    if t.dom().contains(hex) {
        let tile = t[hex];
        if tile.wall_height == height {
            tile
        } else if tile.wall_height < height {
            HexTileData { ground_height: tile.ground_height, wall_height: height }
        } else {
            HexTileData {
                ground_height: if tile.ground_height > height {
                    height
                } else {
                    tile.ground_height
                },
                wall_height: height,
            }
        }
    } else {
        HexTileData { ground_height: 0, wall_height: height }
    }
}

/// The q-component of the `i`-th neighbor delta, in expansion order.
pub open spec fn delta_q(i: int) -> int {
    if i == 0 {
        0
    } else if i == 1 {
        1
    } else if i == 2 {
        1
    } else if i == 3 {
        0
    } else if i == 4 {
        -1
    } else {
        -1
    }
}

/// The r-component of the `i`-th neighbor delta, in expansion order.
pub open spec fn delta_r(i: int) -> int {
    if i == 0 {
        -1
    } else if i == 1 {
        -1
    } else if i == 2 {
        0
    } else if i == 3 {
        1
    } else if i == 4 {
        1
    } else {
        0
    }
}

/// Whether the `i`-th neighbor of `cur` has coordinates representable as
/// an axial pair.
pub open spec fn nbr_in_range(cur: Axial, i: int) -> bool {
    &&& i32::MIN <= cur.q + delta_q(i) <= i32::MAX
    &&& i32::MIN <= cur.r + delta_r(i) <= i32::MAX
}

/// The `i`-th neighbor of `cur`.
pub open spec fn nbr(cur: Axial, i: int) -> Axial {
    Axial { q: (cur.q + delta_q(i)) as i32, r: (cur.r + delta_r(i)) as i32 }
}

/// Whether the flood fill, expanding `cur` against field `f`, labels the
/// `i`-th neighbor: the neighbor exists in the terrain, carries no label
/// yet, and the height rule holds between it and `cur`.
pub open spec fn step_ok(
    t: Map<Axial, HexTileData>,
    f: Map<Axial, HexPathNode>,
    cur: Axial,
    i: int,
) -> bool {
    &&& nbr_in_range(cur, i)
    &&& t.dom().contains(cur)
    &&& t.dom().contains(nbr(cur, i))
    &&& !f.dom().contains(nbr(cur, i))
    &&& heights_ok(t, cur, nbr(cur, i))
}

/// The field after expanding the first `i` neighbors of `cur`.
pub open spec fn expand_field(
    t: Map<Axial, HexTileData>,
    f: Map<Axial, HexPathNode>,
    cur: Axial,
    i: int,
) -> Map<Axial, HexPathNode>
    decreases i,
{
    if i <= 0 {
        f
    } else {
        let f2 = expand_field(t, f, cur, i - 1);
        if step_ok(t, f2, cur, i - 1) {
            f2.insert(nbr(cur, i - 1), node_from_delta(-delta_q(i - 1), -delta_r(i - 1)))
        } else {
            f2
        }
    }
}

/// The frontier after expanding the first `i` neighbors of `cur`: newly
/// labeled neighbors are appended in expansion order.
pub open spec fn expand_queue(
    t: Map<Axial, HexTileData>,
    f: Map<Axial, HexPathNode>,
    q: Seq<Axial>,
    cur: Axial,
    i: int,
) -> Seq<Axial>
    decreases i,
{
    if i <= 0 {
        q
    } else {
        let f2 = expand_field(t, f, cur, i - 1);
        let q2 = expand_queue(t, f, q, cur, i - 1);
        if step_ok(t, f2, cur, i - 1) {
            q2.push(nbr(cur, i - 1))
        } else {
            q2
        }
    }
}

proof fn lemma_expand_measure(
    t: Map<Axial, HexTileData>,
    f: Map<Axial, HexPathNode>,
    q: Seq<Axial>,
    cur: Axial,
    i: int,
)
    requires
        t.dom().finite(),
        f.dom().finite(),
        0 <= i,
    ensures
        expand_field(t, f, cur, i).dom().finite(),
        t.dom().difference(expand_field(t, f, cur, i).dom()).len() + expand_queue(
            t,
            f,
            q,
            cur,
            i,
        ).len() == t.dom().difference(f.dom()).len() + q.len(),
        expand_queue(t, f, q, cur, i).len() >= q.len(),
    decreases i,
{
    if i > 0 {
        lemma_expand_measure(t, f, q, cur, i - 1);
        let f2 = expand_field(t, f, cur, i - 1);
        if step_ok(t, f2, cur, i - 1) {
            let n = nbr(cur, i - 1);
            assert(t.dom().difference(expand_field(t, f, cur, i).dom()) =~= t.dom().difference(
                f2.dom(),
            ).remove(n));
        }
    }
}

/// The breadth-first flood fill itself: pops the frontier's front tile,
/// labels its feasible unlabeled neighbors with the direction back toward
/// it, appends them to the frontier, and recurses until the frontier is
/// exhausted.
pub open spec fn bfs(
    t: Map<Axial, HexTileData>,
    f: Map<Axial, HexPathNode>,
    q: Seq<Axial>,
) -> Map<Axial, HexPathNode>
    decreases t.dom().difference(f.dom()).len() + q.len(),
        when t.dom().finite() && f.dom().finite()
    via bfs_decreases
{
    if q.len() == 0 {
        f
    } else {
        let cur = q[0];
        bfs(t, expand_field(t, f, cur, 6), expand_queue(t, f, q, cur, 6).drop_first())
    }
}

#[via_fn]
proof fn bfs_decreases(t: Map<Axial, HexTileData>, f: Map<Axial, HexPathNode>, q: Seq<Axial>) {
    if q.len() != 0 {
        lemma_expand_measure(t, f, q, q[0], 6);
        assert(expand_queue(t, f, q, q[0], 6).drop_first().len() == expand_queue(
            t,
            f,
            q,
            q[0],
            6,
        ).len() - 1);
    }
}

/// The field that marks exactly the goal tiles, each with the `Goal`
/// label: the flood fill's starting state.
pub open spec fn goal_field(gs: Seq<Axial>) -> Map<Axial, HexPathNode> {
    Map::new(|a: Axial| gs.contains(a), |a: Axial| HexPathNode::Goal)
}

/// The direction field the builder computes for a terrain and a goal
/// list: the flood fill run from the goal field with the goal list as the
/// initial frontier. A deterministic function of its two arguments.
pub open spec fn field_spec(t: Map<Axial, HexTileData>, gs: Seq<Axial>) -> Map<
    Axial,
    HexPathNode,
> {
    bfs(t, goal_field(gs), gs)
}

/// Whether the coordinates one label step away from `a` are representable.
pub open spec fn parent_in_range(a: Axial, n: HexPathNode) -> bool {
    &&& i32::MIN <= a.q + node_dq(n) <= i32::MAX
    &&& i32::MIN <= a.r + node_dr(n) <= i32::MAX
}

/// The tile one label step away from `a`: the previous tile on the path
/// toward a goal.
pub open spec fn parent_of(a: Axial, n: HexPathNode) -> Axial {
    Axial { q: (a.q + node_dq(n)) as i32, r: (a.r + node_dr(n)) as i32 }
}

/// Every feasible step out of `a` leads to a labeled tile.
pub open spec fn expanded(
    t: Map<Axial, HexTileData>,
    f: Map<Axial, HexPathNode>,
    a: Axial,
) -> bool {
    forall|n: Axial| #[trigger] feasible(t, a, n) ==> f.dom().contains(n)
}

/// Well-formedness of a direction field over a terrain, witnessed by a
/// rank map: every tile labeled with a direction has its parent in the
/// field, the step between them is feasible, and the parent's rank is
/// strictly smaller — so following labels always terminates at a `Goal`.
pub open spec fn field_wf_rank(
    t: Map<Axial, HexTileData>,
    f: Map<Axial, HexPathNode>,
    rank: Map<Axial, nat>,
) -> bool {
    forall|a: Axial|
        #![trigger f[a]]
        f.dom().contains(a) && f[a] != HexPathNode::Goal ==> {
            &&& parent_in_range(a, f[a])
            &&& f.dom().contains(parent_of(a, f[a]))
            &&& feasible(t, parent_of(a, f[a]), a)
            &&& rank.dom().contains(a)
            &&& rank.dom().contains(parent_of(a, f[a]))
            &&& rank[parent_of(a, f[a])] < rank[a]
        }
}

/// A direction field that some rank map certifies acyclic and feasible.
pub open spec fn field_wf(t: Map<Axial, HexTileData>, f: Map<Axial, HexPathNode>) -> bool {
    exists|rank: Map<Axial, nat>| field_wf_rank(t, f, rank)
}

proof fn lemma_reachable_labeled(
    t: Map<Axial, HexTileData>,
    gs: Seq<Axial>,
    f: Map<Axial, HexPathNode>,
    a: Axial,
    k: nat,
)
    requires
        forall|g: Axial| gs.contains(g) ==> f.dom().contains(g),
        forall|x: Axial| #[trigger] f.dom().contains(x) ==> expanded(t, f, x),
        reachable_in(t, gs, a, k),
    ensures
        f.dom().contains(a),
    decreases k,
{
    if !gs.contains(a) {
        let b = choose|b: Axial|
            reachable_in(t, gs, b, (k - 1) as nat) && #[trigger] feasible(t, b, a);
        lemma_reachable_labeled(t, gs, f, b, (k - 1) as nat);
    }
}

proof fn lemma_expand_noop(
    t: Map<Axial, HexTileData>,
    f: Map<Axial, HexPathNode>,
    q: Seq<Axial>,
    cur: Axial,
    i: int,
)
    requires
        !t.dom().contains(cur),
    ensures
        expand_field(t, f, cur, i) == f,
        expand_queue(t, f, q, cur, i) == q,
        expanded(t, f, cur),
    decreases i,
{
    if i > 0 {
        lemma_expand_noop(t, f, q, cur, i - 1);
    }
}

proof fn lemma_skip_step(s: Seq<Axial>, h: int, a: Axial)
    requires
        0 <= h < s.len(),
        s.skip(h).contains(a),
    ensures
        a == s[h] || s.skip(h + 1).contains(a),
{
    let i = choose|i: int| 0 <= i < s.skip(h).len() && s.skip(h)[i] == a;
    if i != 0 {
        assert(s.skip(h + 1)[i - 1] == a);
    }
}

proof fn lemma_master_step(
    t: Map<Axial, HexTileData>,
    f0: Map<Axial, HexPathNode>,
    q0: Seq<Axial>,
    f1: Map<Axial, HexPathNode>,
    q1: Seq<Axial>,
    h: int,
    fg: Map<Axial, HexPathNode>,
    gs: Seq<Axial>,
)
    requires
        t.dom().finite(),
        f0.dom().finite(),
        0 <= h < q0.len(),
        q1.len() >= q0.len(),
        f1 == expand_field(t, f0, q0[h], 6),
        q1.skip(h) == expand_queue(t, f0, q0.skip(h), q0[h], 6),
        bfs(t, f0, q0.skip(h)) == bfs(t, fg, gs),
    ensures
        bfs(t, f1, q1.skip(h + 1)) == bfs(t, fg, gs),
{
    assert(q0.skip(h)[0] == q0[h]);
    assert(q0.skip(h).len() > 0);
    lemma_expand_measure(t, f0, q0.skip(h), q0[h], 6);
    assert(q1.skip(h + 1) =~= expand_queue(t, f0, q0.skip(h), q0[h], 6).drop_first());
    assert(bfs(t, f0, q0.skip(h)) == bfs(
        t,
        expand_field(t, f0, q0[h], 6),
        expand_queue(t, f0, q0.skip(h), q0[h], 6).drop_first(),
    ));
}

proof fn lemma_closure_step(
    t: Map<Axial, HexTileData>,
    f: Map<Axial, HexPathNode>,
    q: Seq<Axial>,
    h: int,
    cur: Axial,
)
    requires
        0 <= h < q.len(),
        q[h] == cur,
        inv_closure(t, f, q, h),
        expanded(t, f, cur),
    ensures
        inv_closure(t, f, q, h + 1),
{
    assert forall|a: Axial| #[trigger] f.dom().contains(a) implies q.skip(h + 1).contains(a)
        || expanded(t, f, a) by {
        if q.skip(h).contains(a) {
            lemma_skip_step(q, h, a);
        }
    }
}

#[verifier::rlimit(100)]
proof fn lemma_insert_update(
    t: Map<Axial, HexTileData>,
    f0: Map<Axial, HexPathNode>,
    pend0: Seq<Axial>,
    cur: Axial,
    i: int,
    qpre: Seq<Axial>,
    qall: Seq<Axial>,
    head: int,
    rank: Map<Axial, nat>,
    c: nat,
    gs: Seq<Axial>,
)
    requires
        0 <= i < 6,
        0 <= head < qpre.len(),
        qpre[head] == cur,
        t.dom().finite(),
        expand_field(t, f0, cur, i).dom().finite(),
        qpre.skip(head) == expand_queue(t, f0, pend0, cur, i),
        step_ok(t, expand_field(t, f0, cur, i), cur, i),
        qall == qpre.push(nbr(cur, i)),
        inv_queue_labeled(expand_field(t, f0, cur, i), qpre, head),
        inv_closure(t, expand_field(t, f0, cur, i), qpre, head),
        inv_goals(gs, expand_field(t, f0, cur, i)),
        inv_sound(t, gs, expand_field(t, f0, cur, i), rank, c),
    ensures
        expand_field(t, f0, cur, i + 1) == expand_field(t, f0, cur, i).insert(
            nbr(cur, i),
            node_from_delta(-delta_q(i), -delta_r(i)),
        ),
        qall.skip(head) == expand_queue(t, f0, pend0, cur, i + 1),
        expand_field(t, f0, cur, i + 1).dom().finite(),
        t.dom().difference(expand_field(t, f0, cur, i + 1).dom()).len() + qall.len()
            == t.dom().difference(expand_field(t, f0, cur, i).dom()).len() + qpre.len(),
        inv_queue_labeled(expand_field(t, f0, cur, i + 1), qall, head),
        inv_closure(t, expand_field(t, f0, cur, i + 1), qall, head),
        inv_goals(gs, expand_field(t, f0, cur, i + 1)),
        inv_sound(t, gs, expand_field(t, f0, cur, i + 1), rank.insert(nbr(cur, i), c), c + 1),
        forall|j: int|
            0 <= j < 6 ==> (expand_field(t, f0, cur, i).dom().contains(#[trigger] nbr(cur, j))
                ==> expand_field(t, f0, cur, i + 1).dom().contains(nbr(cur, j))),
{
    let fprev = expand_field(t, f0, cur, i);
    let qprev = expand_queue(t, f0, pend0, cur, i);
    let n = nbr(cur, i);
    let label = node_from_delta(-delta_q(i), -delta_r(i));
    let f2 = fprev.insert(n, label);
    assert(expand_field(t, f0, cur, i + 1) == f2);
    assert(qall.skip(head) =~= qprev.push(n));
    assert(t.dom().difference(f2.dom()) =~= t.dom().difference(fprev.dom()).remove(n));
    assert(node_dq(label) == cur.q - n.q);
    assert(node_dr(label) == cur.r - n.r);
    assert(label != HexPathNode::Goal);
    assert(parent_in_range(n, label));
    assert(parent_of(n, label) == cur);
    assert(adjacent(cur, n));
    assert(feasible(t, cur, n));
    assert(fprev.dom().contains(cur));
    lemma_insert_step(t, fprev, rank, c, gs, cur, n, label);
    assert forall|a: Axial| #[trigger] f2.dom().contains(a) implies qall.skip(head).contains(a)
        || expanded(t, f2, a) by {
        if a == n {
            assert(qall.skip(head)[qall.len() - 1 - head] == n);
        } else {
            assert(fprev.dom().contains(a));
            if qpre.skip(head).contains(a) {
                let ii = choose|ii: int|
                    0 <= ii < qpre.skip(head).len() && qpre.skip(head)[ii] == a;
                assert(qall.skip(head)[ii] == a);
            } else {
                assert(expanded(t, fprev, a));
            }
        }
    }
    assert forall|j: int| head <= j < qall.len() implies f2.dom().contains(
        #[trigger] qall[j],
    ) by {
        if j < qpre.len() {
            assert(qall[j] == qpre[j]);
        } else {
            assert(qall[j] == n);
        }
    }
}

proof fn lemma_rank_desc(p: Seq<Axial>, rank: Map<Axial, nat>, i: int, j: int)
    requires
        forall|k: int| 0 <= k < p.len() - 1 ==> rank[#[trigger] p[k]] > rank[p[k + 1]],
        0 <= i < j < p.len(),
    ensures
        rank[p[i]] > rank[p[j]],
    decreases j - i,
{
    if j > i + 1 {
        lemma_rank_desc(p, rank, i, j - 1);
    }
}

proof fn lemma_path_len_bound(p: Seq<Axial>, dom: Set<Axial>, rank: Map<Axial, nat>)
    requires
        dom.finite(),
        forall|i: int| 0 <= i < p.len() ==> dom.contains(#[trigger] p[i]),
        forall|k: int| 0 <= k < p.len() - 1 ==> rank[#[trigger] p[k]] > rank[p[k + 1]],
    ensures
        p.len() <= dom.len(),
{
    assert forall|i: int, j: int| 0 <= i < j < p.len() implies p[i] != p[j] by {
        lemma_rank_desc(p, rank, i, j);
        assert(rank[p[i]] > rank[p[j]]);
    }
    assert(p.no_duplicates());
    p.unique_seq_to_set();
    vstd::seq_lib::seq_to_set_is_finite(p);
    assert forall|x: Axial| p.to_set().contains(x) implies dom.contains(x) by {
        let i = choose|i: int| 0 <= i < p.len() && p[i] == x;
        assert(dom.contains(p[i]));
    }
    vstd::set_lib::lemma_len_subset(p.to_set(), dom);
}

fn delta_pair(i: usize) -> (d: (i32, i32))
    requires
        i < 6,
    ensures
        d.0 as int == delta_q(i as int),
        d.1 as int == delta_r(i as int),
{
    if i == 0 {
        (0, -1)
    } else if i == 1 {
        (1, -1)
    } else if i == 2 {
        (1, 0)
    } else if i == 3 {
        (0, 1)
    } else if i == 4 {
        (-1, 1)
    } else {
        (-1, 0)
    }
}

/// Goal labels mark exactly the tiles of the goal list.
spec fn inv_goals(gs: Seq<Axial>, f: Map<Axial, HexPathNode>) -> bool {
    &&& forall|a: Axial|
        gs.contains(a) ==> f.dom().contains(a) && f[a] == HexPathNode::Goal
    &&& forall|a: Axial| #[trigger]
        f.dom().contains(a) && f[a] == HexPathNode::Goal ==> gs.contains(a)
}

/// The field is rank-certified well-formed, every label is reachable from
/// the goal list, and every rank stays below the counter.
spec fn inv_sound(
    t: Map<Axial, HexTileData>,
    gs: Seq<Axial>,
    f: Map<Axial, HexPathNode>,
    rank: Map<Axial, nat>,
    c: nat,
) -> bool {
    &&& field_wf_rank(t, f, rank)
    &&& forall|a: Axial| #[trigger] f.dom().contains(a) ==> rank.dom().contains(a) && rank[a] < c
    &&& forall|a: Axial| #[trigger] f.dom().contains(a) ==> reachable(t, gs, a)
}

/// Every tile still on the frontier is labeled.
spec fn inv_queue_labeled(f: Map<Axial, HexPathNode>, q: Seq<Axial>, h: int) -> bool {
    forall|j: int| h <= j < q.len() ==> f.dom().contains(#[trigger] q[j])
}

/// Every labeled tile is still on the frontier or already expanded.
spec fn inv_closure(
    t: Map<Axial, HexTileData>,
    f: Map<Axial, HexPathNode>,
    q: Seq<Axial>,
    h: int,
) -> bool {
    forall|a: Axial| #[trigger]
        f.dom().contains(a) ==> q.skip(h).contains(a) || expanded(t, f, a)
}

proof fn lemma_insert_step(
    t: Map<Axial, HexTileData>,
    f: Map<Axial, HexPathNode>,
    rank: Map<Axial, nat>,
    c: nat,
    gs: Seq<Axial>,
    cur: Axial,
    n: Axial,
    label: HexPathNode,
)
    requires
        inv_goals(gs, f),
        inv_sound(t, gs, f, rank, c),
        !f.dom().contains(n),
        f.dom().contains(cur),
        label != HexPathNode::Goal,
        parent_in_range(n, label),
        parent_of(n, label) == cur,
        feasible(t, cur, n),
    ensures
        inv_goals(gs, f.insert(n, label)),
        inv_sound(t, gs, f.insert(n, label), rank.insert(n, c), c + 1),
        forall|a: Axial| #[trigger] expanded(t, f, a) ==> expanded(t, f.insert(n, label), a),
{
    let f2 = f.insert(n, label);
    let r2 = rank.insert(n, c);
    assert forall|a: Axial| #[trigger] f2.dom().contains(a) && f2[a] != HexPathNode::Goal implies {
        &&& parent_in_range(a, f2[a])
        &&& f2.dom().contains(parent_of(a, f2[a]))
        &&& feasible(t, parent_of(a, f2[a]), a)
        &&& r2.dom().contains(a)
        &&& r2.dom().contains(parent_of(a, f2[a]))
        &&& r2[parent_of(a, f2[a])] < r2[a]
    } by {
        if a == n {
            assert(cur != n);
            assert(r2[cur] == rank[cur]);
            assert(rank[cur] < c);
        } else {
            assert(f.dom().contains(a));
            if f[a] != HexPathNode::Goal {
                let p = parent_of(a, f[a]);
                assert(f.dom().contains(p));
                assert(p != n);
                assert(r2[p] == rank[p]);
                assert(r2[a] == rank[a]);
            }
        }
    }
    assert forall|a: Axial| #[trigger] f2.dom().contains(a) implies r2.dom().contains(a)
        && r2[a] < c + 1 by {
        if a != n {
            assert(f.dom().contains(a));
        }
    }
    assert(reachable(t, gs, cur));
    let k0 = choose|k: nat| reachable_in(t, gs, cur, k);
    assert(reachable_in(t, gs, n, k0 + 1));
    assert(reachable(t, gs, n));
    assert forall|a: Axial| #[trigger] f2.dom().contains(a) implies reachable(t, gs, a) by {
        if a != n {
            assert(f.dom().contains(a));
        }
    }
    assert forall|a: Axial| gs.contains(a) implies f2.dom().contains(a) && f2[a]
        == HexPathNode::Goal by {
        assert(f.dom().contains(a));
        assert(a != n);
    }
    assert forall|a: Axial| #[trigger] expanded(t, f, a) implies expanded(t, f2, a) by {
        assert forall|m: Axial| #[trigger] feasible(t, a, m) implies f2.dom().contains(m) by {
            assert(f.dom().contains(m));
        }
    }
}

proof fn lemma_expanded_from_steps(
    t: Map<Axial, HexTileData>,
    f: Map<Axial, HexPathNode>,
    cur: Axial,
)
    requires
        forall|j: int|
            0 <= j < 6 && nbr_in_range(cur, j) && t.dom().contains(#[trigger] nbr(cur, j))
                && heights_ok(t, cur, nbr(cur, j)) ==> f.dom().contains(nbr(cur, j)),
    ensures
        expanded(t, f, cur),
{
    assert forall|n2: Axial| #[trigger] feasible(t, cur, n2) implies f.dom().contains(n2) by {
        let dq2 = n2.q as int - cur.q as int;
        let dr2 = n2.r as int - cur.r as int;
        let j: int = if dq2 == 0 && dr2 == -1 {
            0
        } else if dq2 == 1 && dr2 == -1 {
            1
        } else if dq2 == 1 && dr2 == 0 {
            2
        } else if dq2 == 0 && dr2 == 1 {
            3
        } else if dq2 == -1 && dr2 == 1 {
            4
        } else {
            5
        };
        assert(nbr_in_range(cur, j));
        assert(nbr(cur, j) == n2);
    }
}

/// Expands the frontier tile at `queue[head]`: labels each of its feasible
/// unlabeled neighbors with the direction back toward it and appends them
/// to the frontier, exactly as `expand_field` and `expand_queue` describe.
#[verifier::rlimit(100)]
fn expand_tile(
    terrain: &HexGrid<HexTileData>,
    dijkstra: &mut HexGrid<HexPathNode>,
    queue: &mut Vec<Axial>,
    head: usize,
    Ghost(gs): Ghost<Seq<Axial>>,
    Ghost(rank0): Ghost<Map<Axial, nat>>,
    Ghost(c0): Ghost<nat>,
) -> (rc: (Ghost<Map<Axial, nat>>, Ghost<nat>))
    requires
        head < old(queue)@.len(),
        terrain@.dom().finite(),
        old(dijkstra)@.dom().finite(),
        terrain@.dom().contains(old(queue)@[head as int]),
        inv_queue_labeled(old(dijkstra)@, old(queue)@, head as int),
        inv_closure(terrain@, old(dijkstra)@, old(queue)@, head as int),
        inv_goals(gs, old(dijkstra)@),
        inv_sound(terrain@, gs, old(dijkstra)@, rank0, c0),
    ensures
        final(dijkstra)@ == expand_field(terrain@, old(dijkstra)@, old(queue)@[head as int], 6),
        final(queue)@.skip(head as int) == expand_queue(
            terrain@,
            old(dijkstra)@,
            old(queue)@.skip(head as int),
            old(queue)@[head as int],
            6,
        ),
        final(queue)@.len() >= old(queue)@.len(),
        final(queue)@[head as int] == old(queue)@[head as int],
        final(dijkstra)@.dom().finite(),
        terrain@.dom().difference(final(dijkstra)@.dom()).len() + final(queue)@.len()
            == terrain@.dom().difference(old(dijkstra)@.dom()).len() + old(queue)@.len(),
        expanded(terrain@, final(dijkstra)@, old(queue)@[head as int]),
        inv_queue_labeled(final(dijkstra)@, final(queue)@, head as int),
        inv_closure(terrain@, final(dijkstra)@, final(queue)@, head as int),
        inv_goals(gs, final(dijkstra)@),
        inv_sound(terrain@, gs, final(dijkstra)@, rc.0@, rc.1@),
{
    let ghost t = terrain@;
    let ghost f0 = dijkstra@;
    let ghost pend0 = queue@.skip(head as int);
    let ghost m0 = t.dom().difference(f0.dom()).len() + queue@.len();
    let ghost mut rank = rank0;
    let ghost mut c = c0;
    let cur = queue[head];
    let ch = match terrain.get(cur) {
        Some(tile) => tile.wall_height,
        None => 0,
    };
    let mut i: usize = 0;
    proof {
        assert(queue@.skip(head as int) =~= pend0);
    }
    while i < 6
        invariant
            i <= 6,
            t == terrain@,
            t.dom().finite(),
            t.dom().contains(cur),
            ch == t[cur].wall_height,
            queue@.len() >= pend0.len() + head,
            head < queue@.len(),
            queue@[head as int] == cur,
            dijkstra@ == expand_field(t, f0, cur, i as int),
            queue@.skip(head as int) == expand_queue(t, f0, pend0, cur, i as int),
            dijkstra@.dom().finite(),
            t.dom().difference(dijkstra@.dom()).len() + queue@.len() == m0,
            forall|j: int|
                0 <= j < i && nbr_in_range(cur, j) && t.dom().contains(#[trigger] nbr(cur, j))
                    && heights_ok(t, cur, nbr(cur, j)) ==> dijkstra@.dom().contains(nbr(cur, j)),
            inv_queue_labeled(dijkstra@, queue@, head as int),
            inv_closure(t, dijkstra@, queue@, head as int),
            inv_goals(gs, dijkstra@),
            inv_sound(t, gs, dijkstra@, rank, c),
        decreases 6 - i,
    {
        let (dq, dr) = delta_pair(i);
        let nq = cur.q as i64 + dq as i64;
        let nr = cur.r as i64 + dr as i64;
        if nq >= i32::MIN as i64 && nq <= i32::MAX as i64 && nr >= i32::MIN as i64 && nr
            <= i32::MAX as i64 {
            let n = Axial::new(nq as i32, nr as i32);
            proof {
                assert(nbr_in_range(cur, i as int));
                assert(n == nbr(cur, i as int));
            }
            match terrain.get(n) {
                Some(ntile) => {
                    if dijkstra.get(n).is_none() {
                        let nh = ntile.wall_height;
                        let larger = if nh > ch {
                            nh
                        } else {
                            ch
                        };
                        let smaller = if nh > ch {
                            ch
                        } else {
                            nh
                        };
                        if larger - smaller <= 1 && larger < MAX_BRICK_HEIGHT {
                            proof {
                                assert(heights_ok(t, cur, nbr(cur, i as int)));
                                assert(step_ok(t, dijkstra@, cur, i as int));
                                assert(is_label_delta(cur.q - n.q, cur.r - n.r));
                            }
                            let ghost qsnap = queue@;
                            let label = HexPathNode::from_hex(cur, n);
                            dijkstra.set(n, label);
                            queue.push(n);
                            proof {
                                assert(label == node_from_delta(
                                    -delta_q(i as int),
                                    -delta_r(i as int),
                                ));
                                lemma_insert_update(
                                    t,
                                    f0,
                                    pend0,
                                    cur,
                                    i as int,
                                    qsnap,
                                    queue@,
                                    head as int,
                                    rank,
                                    c,
                                    gs,
                                );
                                rank = rank.insert(n, c);
                                c = c + 1;
                            }
                        }
                    }
                },
                None => {},
            }
        }
        i += 1;
    }
    proof {
        lemma_expanded_from_steps(t, dijkstra@, cur);
    }
    (Ghost(rank), Ghost(c))
}

/// Rebuilds the direction field from scratch: clears it, marks every goal
/// tile with `Goal` (duplicates are harmless no-ops), then expands a FIFO
/// frontier, labeling each feasible unlabeled neighbor with the direction
/// back toward the tile it was discovered from. The result is exactly
/// `field_spec(terrain@, goals@)`; its domain is exactly the set of tiles
/// reachable from the goal list, and a rank certificate guarantees that
/// every label chain ends at a `Goal`.
#[verifier::rlimit(100)]
pub fn update_dijkstra_hexmap(
    terrain: &HexGrid<HexTileData>,
    dijkstra: &mut HexGrid<HexPathNode>,
    goals: Vec<Axial>,
)
    ensures
        final(dijkstra)@ == field_spec(terrain@, goals@),
        field_wf(terrain@, final(dijkstra)@),
        forall|a: Axial| reachable(terrain@, goals@, a) ==> final(dijkstra)@.dom().contains(a),
        forall|a: Axial| #[trigger]
            final(dijkstra)@.dom().contains(a) ==> reachable(terrain@, goals@, a),
        forall|a: Axial|
            goals@.contains(a) ==> final(dijkstra)@.dom().contains(a) && final(dijkstra)@[a]
                == HexPathNode::Goal,
        forall|a: Axial| #[trigger]
            final(dijkstra)@.dom().contains(a) && final(dijkstra)@[a] == HexPathNode::Goal
                ==> goals@.contains(a),
{
    let ghost t = terrain@;
    let ghost gs = goals@;
    proof {
        terrain.lemma_dom_finite();
    }
    dijkstra.clear();

    let mut idx: usize = 0;
    while idx < goals.len()
        invariant
            idx <= gs.len(),
            gs == goals@,
            dijkstra@ == Map::new(
                |a: Axial| gs.subrange(0, idx as int).contains(a),
                |a: Axial| HexPathNode::Goal,
            ),
            dijkstra@.dom().finite(),
        decreases gs.len() - idx,
    {
        let g = goals[idx];
        dijkstra.set(g, HexPathNode::Goal);
        proof {
            assert(gs.subrange(0, idx as int + 1) =~= gs.subrange(0, idx as int).push(
                gs[idx as int],
            ));
            assert_maps_equal!(
                dijkstra@,
                Map::new(
                    |a: Axial| gs.subrange(0, idx as int + 1).contains(a),
                    |a: Axial| HexPathNode::Goal,
                ),
                a => {
                    vstd::seq_lib::lemma_seq_contains_after_push(
                        gs.subrange(0, idx as int),
                        gs[idx as int],
                        a,
                    );
                }
            );
        }
        idx += 1;
    }
    proof {
        assert(gs.subrange(0, gs.len() as int) =~= gs);
        assert(dijkstra@ =~= goal_field(gs));
        assert forall|a: Axial| #[trigger] dijkstra@.dom().contains(a) implies reachable(
            t,
            gs,
            a,
        ) by {
            assert(reachable_in(t, gs, a, 0));
        }
    }

    let ghost mut rank: Map<Axial, nat> = Map::new(
        |a: Axial| goal_field(gs).dom().contains(a),
        |a: Axial| 0nat,
    );
    let ghost mut c: nat = 1;

    let mut queue = goals;
    let mut head: usize = 0;
    proof {
        assert(queue@.skip(0) =~= gs);
    }
    while head < queue.len()
        invariant
            t == terrain@,
            t.dom().finite(),
            head <= queue@.len(),
            dijkstra@.dom().finite(),
            bfs(t, dijkstra@, queue@.skip(head as int)) == bfs(t, goal_field(gs), gs),
            inv_queue_labeled(dijkstra@, queue@, head as int),
            inv_closure(t, dijkstra@, queue@, head as int),
            inv_goals(gs, dijkstra@),
            inv_sound(t, gs, dijkstra@, rank, c),
        decreases t.dom().difference(dijkstra@.dom()).len() + queue@.len() - head,
    {
        let cur = queue[head];
        let ghost f0 = dijkstra@;
        let ghost q0 = queue@;
        let ghost pend0 = queue@.skip(head as int);
        proof {
            assert(pend0[0] == cur);
        }
        let cur_exists = terrain.get(cur).is_some();
        if cur_exists {
            let rc = expand_tile(
                terrain,
                dijkstra,
                &mut queue,
                head,
                Ghost(gs),
                Ghost(rank),
                Ghost(c),
            );
            proof {
                rank = rc.0@;
                c = rc.1@;
                lemma_master_step(t, f0, q0, dijkstra@, queue@, head as int, goal_field(gs), gs);
                lemma_closure_step(t, dijkstra@, queue@, head as int, cur);
            }
        } else {
            proof {
                lemma_expand_noop(t, f0, pend0, cur, 6);
                lemma_master_step(t, f0, q0, dijkstra@, queue@, head as int, goal_field(gs), gs);
                lemma_closure_step(t, dijkstra@, queue@, head as int, cur);
            }
        }
        head += 1;
    }
    proof {
        assert(queue@.skip(head as int) =~= Seq::<Axial>::empty());
        assert(dijkstra@ == field_spec(t, gs));
        assert(field_wf(t, dijkstra@));
        assert forall|x: Axial| #[trigger] dijkstra@.dom().contains(x) implies expanded(
            t,
            dijkstra@,
            x,
        ) by {
            assert(!queue@.skip(head as int).contains(x));
        }
        assert forall|a: Axial| reachable(t, gs, a) implies dijkstra@.dom().contains(a) by {
            let k = choose|k: nat| reachable_in(t, gs, a, k);
            lemma_reachable_labeled(t, gs, dijkstra@, a, k);
        }
    }
}

/// The rectangle of axial coordinates a fresh map's terrain covers.
pub open spec fn rect_dom(w: int, h: int) -> Set<Axial> {
    Set::new(|a: Axial| 0 <= a.q < w && 0 <= a.r < h)
}

/// The two parallel grids over one coordinate space: the terrain, edited
/// directly, and the direction field, rebuilt from terrain plus goal set.
pub struct HexMap {
    pub terrain: HexGrid<HexTileData>,
    pub dijkstra: HexGrid<HexPathNode>,
}

impl HexMap {
    /// Builds a map whose terrain covers the rectangle of tiles (q, r) with
    /// 0 <= q < `width` and 0 <= r < `height`, each a floor tile with a
    /// height drawn from a generator seeded with `seed` — never above
    /// `MAX_FLOOR_HEIGHT`, and reproducible from the seed — then builds the
    /// direction field for `goals` against that terrain.
    pub fn new(seed: u64, width: usize, height: usize, goals: Vec<Axial>) -> (m: HexMap)
        requires
            width <= 0x7fff_ffff,
            height <= 0x7fff_ffff,
        ensures
            m.terrain@.dom() == rect_dom(width as int, height as int),
            terrain_inv(m.terrain@),
            forall|a: Axial| #[trigger]
                m.terrain@.dom().contains(a) ==> m.terrain@[a].ground_height
                    == m.terrain@[a].wall_height && m.terrain@[a].wall_height
                    <= MAX_FLOOR_HEIGHT,
            m.dijkstra@ == field_spec(m.terrain@, goals@),
            m.wf(),
            forall|a: Axial|
                reachable(m.terrain@, goals@, a) ==> m.dijkstra@.dom().contains(a),
            forall|a: Axial| #[trigger]
                m.dijkstra@.dom().contains(a) ==> reachable(m.terrain@, goals@, a),
            forall|a: Axial|
                goals@.contains(a) ==> m.dijkstra@.dom().contains(a) && m.dijkstra@[a]
                    == HexPathNode::Goal,
            forall|a: Axial| #[trigger]
                m.dijkstra@.dom().contains(a) && m.dijkstra@[a] == HexPathNode::Goal
                    ==> goals@.contains(a),
    {
        let mut terrain: HexGrid<HexTileData> = HexGrid::new();
        let mut rng = rng_from_seed(seed);
        let mut q: usize = 0;
        proof {
            assert(terrain@.dom() =~= Set::new(
                |a: Axial| 0 <= a.q < 0 as int && 0 <= a.r < height as int,
            ));
        }
        while q < width
            invariant
                q <= width,
                width <= 0x7fff_ffff,
                height <= 0x7fff_ffff,
                terrain@.dom() == Set::new(
                    |a: Axial| 0 <= a.q < q as int && 0 <= a.r < height as int,
                ),
                forall|a: Axial| #[trigger]
                    terrain@.dom().contains(a) ==> terrain@[a].ground_height
                        == terrain@[a].wall_height && terrain@[a].wall_height
                        <= MAX_FLOOR_HEIGHT,
            decreases width - q,
        {
            let mut r: usize = 0;
            proof {
                assert(terrain@.dom() =~= Set::new(
                    |a: Axial|
                        (0 <= a.q < q as int && 0 <= a.r < height as int) || (a.q == q as int && 0
                            <= a.r < 0 as int),
                ));
            }
            while r < height
                invariant
                    r <= height,
                    q < width,
                    width <= 0x7fff_ffff,
                    height <= 0x7fff_ffff,
                    terrain@.dom() == Set::new(
                        |a: Axial|
                            (0 <= a.q < q as int && 0 <= a.r < height as int) || (a.q == q as int
                                && 0 <= a.r < r as int),
                    ),
                    forall|a: Axial| #[trigger]
                        terrain@.dom().contains(a) ==> terrain@[a].ground_height
                            == terrain@[a].wall_height && terrain@[a].wall_height
                            <= MAX_FLOOR_HEIGHT,
                decreases height - r,
            {
                let v = gen_height(&mut rng, MAX_FLOOR_HEIGHT);
                terrain.set(Axial::new(q as i32, r as i32), HexTileData::new(v));
                proof {
                    assert(terrain@.dom() =~= Set::new(
                        |a: Axial|
                            (0 <= a.q < q as int && 0 <= a.r < height as int) || (a.q == q as int
                                && 0 <= a.r < r as int + 1),
                    ));
                }
                r += 1;
            }
            proof {
                assert(terrain@.dom() =~= Set::new(
                    |a: Axial| 0 <= a.q < q as int + 1 && 0 <= a.r < height as int,
                ));
            }
            q += 1;
        }
        proof {
            assert(terrain@.dom() =~= rect_dom(width as int, height as int));
        }
        let dijkstra: HexGrid<HexPathNode> = HexGrid::new();
        let mut m = HexMap { terrain, dijkstra };
        m.update_dijkstra(goals);
        m
    }

    /// Raises or lowers the wall at `hex` to exactly `height`, lowering the
    /// ground only when it would otherwise exceed the wall; inserts a
    /// freestanding wall profile when the tile does not exist. Does not
    /// touch the direction field: the caller rebuilds it when the edit
    /// should affect pathability.
    pub fn flatten_tile(&mut self, hex: Axial, height: u8)
        ensures
            final(self).terrain@ == old(self).terrain@.insert(
                hex,
                flattened(old(self).terrain@, hex, height),
            ),
            final(self).dijkstra@ == old(self).dijkstra@,
            terrain_inv(old(self).terrain@) ==> terrain_inv(final(self).terrain@)
                && final(self).terrain@[hex].wall_height == height
                && final(self).terrain@[hex].ground_height <= height,
    {
        let current = match self.terrain.get(hex) {
            Some(tile) => Some(*tile),
            None => None,
        };
        match current {
            Some(tile) => {
                if tile.wall_height == height {
                    proof {
                        assert(final(self).terrain@ =~= old(self).terrain@.insert(
                            hex,
                            flattened(old(self).terrain@, hex, height),
                        ));
                    }
                } else if tile.wall_height < height {
                    self.terrain.set(
                        hex,
                        HexTileData { ground_height: tile.ground_height, wall_height: height },
                    );
                } else {
                    let ground = if tile.ground_height > height {
                        height
                    } else {
                        tile.ground_height
                    };
                    self.terrain.set(hex, HexTileData { ground_height: ground, wall_height: height });
                }
            },
            None => {
                self.terrain.set(hex, HexTileData::new_wall(height));
            },
        }
    }

    /// The direction field is certified well-formed against the current
    /// terrain; path queries demand it, and every rebuild restores it.
    pub open spec fn wf(self) -> bool {
        field_wf(self.terrain@, self.dijkstra@)
    }

    /// Rebuilds the direction field for `goals` against the current
    /// terrain; see `update_dijkstra_hexmap`.
    pub fn update_dijkstra(&mut self, goals: Vec<Axial>)
        ensures
            final(self).terrain@ == old(self).terrain@,
            final(self).dijkstra@ == field_spec(old(self).terrain@, goals@),
            final(self).wf(),
            forall|a: Axial|
                reachable(old(self).terrain@, goals@, a) ==> final(self).dijkstra@.dom().contains(
                    a,
                ),
            forall|a: Axial| #[trigger]
                final(self).dijkstra@.dom().contains(a) ==> reachable(
                    old(self).terrain@,
                    goals@,
                    a,
                ),
            forall|a: Axial|
                goals@.contains(a) ==> final(self).dijkstra@.dom().contains(a)
                    && final(self).dijkstra@[a] == HexPathNode::Goal,
            forall|a: Axial| #[trigger]
                final(self).dijkstra@.dom().contains(a) && final(self).dijkstra@[a]
                    == HexPathNode::Goal ==> goals@.contains(a),
    {
        update_dijkstra_hexmap(&self.terrain, &mut self.dijkstra, goals);
    }

    /// Reconstructs the path from `start` to the nearest goal by following
    /// direction labels until a `Goal` label: the returned sequence begins
    /// at `start`, each tile steps by its label to the next, only the last
    /// tile carries `Goal`, and the length never exceeds the number of
    /// labeled tiles. Returns `None` when `start` has no terrain entry, and
    /// also — as an explicit guard against looping on an unreachable tile —
    /// when `start` carries no label.
    #[verifier::rlimit(100)]
    pub fn get_path(&self, start: Axial) -> (r: Option<Vec<Axial>>)
        requires
            self.wf(),
        ensures
            match r {
                None => !(self.terrain@.dom().contains(start)
                    && self.dijkstra@.dom().contains(start)),
                Some(path) => {
                    &&& self.terrain@.dom().contains(start)
                    &&& self.dijkstra@.dom().contains(start)
                    &&& path@.len() >= 1
                    &&& path@[0] == start
                    &&& forall|i: int|
                        0 <= i < path@.len() ==> self.dijkstra@.dom().contains(
                            #[trigger] path@[i],
                        )
                    &&& forall|i: int|
                        0 <= i < path@.len() - 1 ==> self.dijkstra@[#[trigger] path@[i]]
                            != HexPathNode::Goal && path@[i + 1] == parent_of(
                            path@[i],
                            self.dijkstra@[path@[i]],
                        )
                    &&& self.dijkstra@[path@[path@.len() - 1]] == HexPathNode::Goal
                    &&& path@.len() <= self.dijkstra@.dom().len()
                },
            },
    {
        if self.terrain.get(start).is_none() {
            return None;
        }
        if self.dijkstra.get(start).is_none() {
            return None;
        }
        let ghost rank = choose|rank: Map<Axial, nat>|
            field_wf_rank(self.terrain@, self.dijkstra@, rank);
        proof {
            self.dijkstra.lemma_dom_finite();
        }
        let mut path: Vec<Axial> = Vec::new();
        path.push(start);
        let mut current_tile = start;
        loop
            invariant
                field_wf_rank(self.terrain@, self.dijkstra@, rank),
                self.dijkstra@.dom().finite(),
                self.terrain@.dom().contains(start),
                self.dijkstra@.dom().contains(start),
                self.dijkstra@.dom().contains(current_tile),
                path@.len() >= 1,
                path@[0] == start,
                path@[path@.len() - 1] == current_tile,
                forall|i: int|
                    0 <= i < path@.len() ==> self.dijkstra@.dom().contains(#[trigger] path@[i]),
                forall|i: int|
                    0 <= i < path@.len() - 1 ==> self.dijkstra@[#[trigger] path@[i]]
                        != HexPathNode::Goal && path@[i + 1] == parent_of(
                        path@[i],
                        self.dijkstra@[path@[i]],
                    ),
                forall|k: int|
                    0 <= k < path@.len() - 1 ==> rank[#[trigger] path@[k]] > rank[path@[k + 1]],
            decreases rank[current_tile],
        {
            let node = *self.dijkstra.get(current_tile).unwrap();
            if node == HexPathNode::Goal {
                proof {
                    lemma_path_len_bound(path@, self.dijkstra@.dom(), rank);
                }
                return Some(path);
            }
            proof {
                assert(self.dijkstra@.dom().contains(current_tile) && self.dijkstra@[current_tile]
                    != HexPathNode::Goal);
                assert(parent_in_range(current_tile, node));
            }
            let d = node.to_hex();
            let hex = Axial::new(current_tile.q + d.q, current_tile.r + d.r);
            proof {
                assert(hex == parent_of(current_tile, node));
                assert(rank[hex] < rank[current_tile]);
            }
            path.push(hex);
            current_tile = hex;
        }
    }
}

} // verus!
