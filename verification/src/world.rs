use vstd::prelude::*;
use std::collections::HashMap;
use std::collections::VecDeque;
use std::collections::hash_map::Entry;
use crate::block::{Block, BlockType, fresh_block, type_is_transparent};
use crate::chunk::{
    Chunk, CHUNK_DEPTH, CHUNK_HEIGHT, CHUNK_WIDTH, MAX_LIGHT, SURFACE_LEVEL, in_chunk, cell,
    block_index, terrain_type, sky_light_settled, darkness, brightness, dark_of, trunks_rooted, log_at,
    carries_log,
};

verus! {

broadcast use vstd::std_specs::hash::group_hash_axioms;

/// The key under which the chunk at chunk coordinates (cx, cz) is stored.
pub open spec fn key_of(cx: int, cz: int) -> u64 {
    ((cx + 2147483648) * 4294967296 + (cz + 2147483648)) as u64
}

pub open spec fn is_i32(v: int) -> bool {
    i32::MIN <= v <= i32::MAX
}

pub proof fn lemma_key_injective(a: int, b: int, c: int, d: int)
    requires
        is_i32(a),
        is_i32(b),
        is_i32(c),
        is_i32(d),
        key_of(a, b) == key_of(c, d),
    ensures
        a == c && b == d,
{
    assert(a == c && b == d) by (nonlinear_arith)
        requires
            is_i32(a),
            is_i32(b),
            is_i32(c),
            is_i32(d),
            (a + 2147483648) * 4294967296 + (b + 2147483648) == (c + 2147483648) * 4294967296 + (b
                + 2147483648) + (d - b),
    ;
}

/// A loaded chunk carries the coordinates it is found by.
pub proof fn lemma_chunk_coords(w: World, cx: int, cz: int)
    requires
        w.wf(),
        w.chunk_at(cx, cz) is Some,
    ensures
        w.chunk_at(cx, cz)->0.coords() == (cx as i32, cz as i32),
{
    let c = w.chunk_at(cx, cz)->0;
    assert(w.chunk_map().contains_key(key_of(cx, cz)));
    lemma_key_injective(c.coords().0 as int, c.coords().1 as int, cx, cz);
}

/// The chunk holding the world column x (floored division by the chunk size).
pub open spec fn chunk_of(x: int) -> int {
    x / 16
}

/// A world coordinate is its chunk's origin plus its place inside the
/// chunk, which lies in 0..16; neighbouring coordinates share a chunk unless
/// the step crosses a multiple of 16.
pub proof fn law_world_coordinates_split(x: int)
    ensures
        chunk_of(x) * 16 + local_of(x) == x,
        0 <= local_of(x) < 16,
        local_of(x) < 15 ==> chunk_of(x + 1) == chunk_of(x) && local_of(x + 1) == local_of(x) + 1,
        local_of(x) == 15 ==> chunk_of(x + 1) == chunk_of(x) + 1 && local_of(x + 1) == 0,
{
}

/// The local coordinate of world coordinate x inside its chunk.
pub open spec fn local_of(x: int) -> int {
    x % 16
}


/// Heights outside the world are moved to its bottom or top layer.
pub open spec fn clamp_height(y: int) -> int {
    if y < 0 {
        0
    } else if y > CHUNK_HEIGHT - 1 {
        CHUNK_HEIGHT - 1
    } else {
        y
    }
}

pub proof fn lemma_world_pos_injective(x1: int, x2: int)
    requires
        chunk_of(x1) == chunk_of(x2),
        local_of(x1) == local_of(x2),
    ensures
        x1 == x2,
{
}


/// The darkness (or, with `dark` false, the total light) of one chunk.
pub open spec fn chunk_sum(c: Chunk, dark: bool) -> nat {
    if dark {
        darkness(c@)
    } else {
        brightness(c@)
    }
}

/// The sum of `chunk_sum` over the chunks stored under the keys `ks`.
pub open spec fn world_sum(m: Map<u64, Chunk>, ks: Set<u64>, dark: bool) -> nat
    decreases ks.len(),
{
    if ks.finite() && ks.len() > 0 {
        let k = ks.choose();
        chunk_sum(m[k], dark) + world_sum(m, ks.remove(k), dark)
    } else {
        0
    }
}

pub proof fn lemma_world_sum_agree(m1: Map<u64, Chunk>, m2: Map<u64, Chunk>, ks: Set<u64>, dark: bool)
    requires
        forall|k: u64| ks.contains(k) ==> chunk_sum(#[trigger] m1[k], dark) == chunk_sum(m2[k], dark),
    ensures
        world_sum(m1, ks, dark) == world_sum(m2, ks, dark),
    decreases ks.len(),
{
    if ks.finite() && ks.len() > 0 {
        let k = ks.choose();
        assert(ks.contains(k));
        lemma_world_sum_agree(m1, m2, ks.remove(k), dark);
    }
}

pub proof fn lemma_world_sum_update(m: Map<u64, Chunk>, ks: Set<u64>, k0: u64, c: Chunk, dark: bool)
    requires
        ks.finite(),
        ks.contains(k0),
    ensures
        world_sum(m.insert(k0, c), ks, dark) + chunk_sum(m[k0], dark) == world_sum(m, ks, dark)
            + chunk_sum(c, dark),
    decreases ks.len(),
{
    let m2 = m.insert(k0, c);
    let k = ks.choose();
    assert(ks.contains(k));
    if k == k0 {
        assert forall|k2: u64| ks.remove(k).contains(k2) implies chunk_sum(#[trigger] m2[k2], dark) == chunk_sum(m[k2], dark) by {}
        lemma_world_sum_agree(m2, m, ks.remove(k), dark);
    } else {
        lemma_world_sum_update(m, ks.remove(k), k0, c, dark);
    }
}


/// A world position.
pub type Pos = (int, int, int);

/// The offsets of the six face neighbours, in the order +X, -X, +Y, -Y, +Z, -Z.
pub open spec fn dir_offset(d: int) -> Pos {
    if d == 0 {
        (1, 0, 0)
    } else if d == 1 {
        (-1, 0, 0)
    } else if d == 2 {
        (0, 1, 0)
    } else if d == 3 {
        (0, -1, 0)
    } else if d == 4 {
        (0, 0, 1)
    } else {
        (0, 0, -1)
    }
}

/// The neighbour of `p` in direction `d`.
pub open spec fn step(p: Pos, d: int) -> Pos {
    (p.0 + dir_offset(d).0, p.1 + dir_offset(d).1, p.2 + dir_offset(d).2)
}

/// The direction opposite to `d`.
pub open spec fn opposite(d: int) -> int {
    if d % 2 == 0 {
        d + 1
    } else {
        d - 1
    }
}

/// The direction index of "down".
pub const DOWN: usize = 3;

/// The direction index of "up".
pub const UP: usize = 2;

/// The light that a block of sky light `l` passes to its neighbour in
/// direction `d`: full sky light keeps falling straight down undimmed,
/// otherwise light loses one level per step.
pub open spec fn passed_on(l: int, d: int) -> int {
    if d == DOWN && l == MAX_LIGHT {
        MAX_LIGHT as int
    } else {
        l - 1
    }
}

pub open spec fn wqueued(q: Seq<(i32, i32, i32)>, p: Pos) -> bool {
    exists|j: int| 0 <= j < q.len() && (#[trigger] q[j]).0 as int == p.0 && q[j].1 as int == p.1
        && q[j].2 as int == p.2
}

/// The position nowhere in the world: "no position is being worked on".
pub open spec fn no_pos() -> Pos {
    (0, -1, 0)
}


/// `w` is `w0` with only sky light changed.
pub open spec fn same_but_light(w0: World, w: World) -> bool {
    &&& w.chunk_map().dom() == w0.chunk_map().dom()
    &&& forall|x: int, y: int, z: int|
        #[trigger] w.block_at(x, y, z) is Some == w0.block_at(x, y, z) is Some
    &&& forall|x: int, y: int, z: int|
        #[trigger] w.block_at(x, y, z) matches Some(b) ==> {
            let b0 = w0.block_at(x, y, z)->0;
            &&& b.block_type == b0.block_type
            &&& b.tree_id == b0.tree_id
            &&& b.block_light == b0.block_light
        }
}

/// No light went down from `w0` to `w`.
pub open spec fn lights_grow(w0: World, w: World) -> bool {
    forall|x: int, y: int, z: int| #[trigger] w.light_at(x, y, z) >= w0.light_at(x, y, z)
}

/// What the relighting flood keeps true at one position: a position that
/// was queued at the start, or whose light rose, has passed its light on
/// unless it is still waiting (or being worked on); a risen light is
/// accounted for by a neighbour.
pub open spec fn wflood_at(
    w0: World,
    w: World,
    q0: Seq<(i32, i32, i32)>,
    q: Seq<(i32, i32, i32)>,
    cur: Pos,
    x: int,
    y: int,
    z: int,
) -> bool {
    &&& (wqueued(q0, (x, y, z)) || w.light_at(x, y, z) > w0.light_at(x, y, z)) ==> (w.spreads(
        (x, y, z),
    ) || wqueued(q, (x, y, z)) || (x, y, z) == cur)
    &&& w.light_at(x, y, z) > w0.light_at(x, y, z) ==> w.fed((x, y, z)) && w.holds_clear(x, y, z)
}

pub open spec fn wflood_inv(
    w0: World,
    w: World,
    q0: Seq<(i32, i32, i32)>,
    q: Seq<(i32, i32, i32)>,
    cur: Pos,
) -> bool {
    &&& w.wf()
    &&& w.lights_bounded()
    &&& same_but_light(w0, w)
    &&& lights_grow(w0, w)
    &&& forall|x: int, y: int, z: int| #[trigger] wflood_at(w0, w, q0, q, cur, x, y, z)
}


/// Every light that rose from `w0` to `w` is at most `cap`, and so is the
/// light of every queued position.
pub open spec fn capped(w0: World, w: World, q: Seq<(i32, i32, i32)>, cap: int) -> bool {
    &&& forall|x: int, y: int, z: int|
        #[trigger] w.light_at(x, y, z) > w0.light_at(x, y, z) ==> w.light_at(x, y, z) <= cap
    &&& forall|j: int|
        0 <= j < q.len() ==> w.light_at((#[trigger] q[j]).0 as int, q[j].1 as int, q[j].2 as int) <= cap
}

pub proof fn lemma_step_back(p: Pos, d: int)
    requires
        0 <= d < 6,
    ensures
        0 <= opposite(d) < 6,
        opposite(opposite(d)) == d,
        step(step(p, d), opposite(d)) == p,
        opposite(d) == DOWN <==> d == UP,
{
}

/// Growing lights keep light passed on.
pub proof fn lemma_reaches_grow(w: World, w2: World, l: int, p: Pos, d: int)
    requires
        same_types_w(w, w2),
        lights_grow(w, w2),
        w.reaches_dir(l, p, d),
    ensures
        w2.reaches_dir(l, p, d),
{
    let n = step(p, d);
    assert(w2.light_at(n.0, n.1, n.2) >= w.light_at(n.0, n.1, n.2));
    assert(w2.block_at(n.0, n.1, n.2) is Some == w.block_at(n.0, n.1, n.2) is Some);
}

/// The two worlds hold the same blocks, sky light aside.
pub open spec fn same_types_w(w: World, w2: World) -> bool {
    &&& forall|x: int, y: int, z: int|
        #[trigger] w2.block_at(x, y, z) is Some == w.block_at(x, y, z) is Some
    &&& forall|x: int, y: int, z: int|
        #[trigger] w2.block_at(x, y, z) matches Some(b) ==> b.block_type == w.block_at(x, y, z)->0.block_type
}

/// Growing lights keep a position's light passed on and accounted for, as
/// long as that position's own light stays.
pub proof fn lemma_grow_at(w: World, w2: World, p: Pos)
    requires
        same_types_w(w, w2),
        lights_grow(w, w2),
        w2.light_at(p.0, p.1, p.2) == w.light_at(p.0, p.1, p.2),
    ensures
        w.spreads(p) ==> w2.spreads(p),
        w.fed(p) ==> w2.fed(p),
{
    if w.spreads(p) {
        assert forall|d: int| 0 <= d < 6 implies #[trigger] w2.reaches_dir(w2.light_at(p.0, p.1, p.2), p, d) by {
            assert(w.reaches_dir(w.light_at(p.0, p.1, p.2), p, d));
            lemma_reaches_grow(w, w2, w.light_at(p.0, p.1, p.2), p, d);
        }
    }
    if w.fed(p) {
        let d = choose|d: int| 0 <= d < 6 && #[trigger] w.feeds(p, d);
        let n = step(p, d);
        assert(w2.light_at(n.0, n.1, n.2) >= w.light_at(n.0, n.1, n.2));
        assert(w2.feeds(p, d));
    }
}

proof fn lemma_relight_step(
    w0: World,
    w: World,
    w2: World,
    q0: Seq<(i32, i32, i32)>,
    q: Seq<(i32, i32, i32)>,
    q2: Seq<(i32, i32, i32)>,
    p: Pos,
    d: int,
    level: int,
)
    requires
        wflood_inv(w0, w, q0, q, p),
        0 <= d < 6,
        w.light_at(p.0, p.1, p.2) > 1,
        level == passed_on(w.light_at(p.0, p.1, p.2), d),
        w.block_at(step(p, d).0, step(p, d).1, step(p, d).2) matches Some(b) && type_is_transparent(
            b.block_type,
        ) && (b.sky_light as int) < level,
        w2.wf(),
        w2.chunk_map().dom() == w.chunk_map().dom(),
        forall|x: int, y: int, z: int|
            #[trigger] w2.block_at(x, y, z) == if (x, y, z) == step(p, d) {
                match w.block_at(x, y, z) {
                    Some(b) => Some(Block { sky_light: level as u8, ..b }),
                    None => None,
                }
            } else {
                w.block_at(x, y, z)
            },
        q2 == q.push((step(p, d).0 as i32, step(p, d).1 as i32, step(p, d).2 as i32)),
    ensures
        wflood_inv(w0, w2, q0, q2, p),
        same_types_w(w, w2),
        lights_grow(w, w2),
        w2.light_at(p.0, p.1, p.2) == w.light_at(p.0, p.1, p.2),
        w2.reaches_dir(w.light_at(p.0, p.1, p.2), p, d),
{
    let n = step(p, d);
    let l = w.light_at(p.0, p.1, p.2);
    lemma_step_back(p, d);
    assert(w.block_at(p.0, p.1, p.2) matches Some(b) ==> b.sky_light <= MAX_LIGHT);
    assert(w.block_at(n.0, n.1, n.2) matches Some(b) ==> b.sky_light <= MAX_LIGHT);
    assert(is_i32(n.0) && is_i32(n.2));
    assert(same_types_w(w, w2));
    assert forall|x: int, y: int, z: int| #[trigger] w2.light_at(x, y, z) >= w.light_at(x, y, z) by {
        assert(w2.block_at(x, y, z) == w2.block_at(x, y, z));
    }
    assert(lights_grow(w, w2));
    assert(w2.lights_bounded()) by {
        assert forall|x: int, y: int, z: int| #[trigger] w2.block_at(x, y, z) is Some implies w2.block_at(x, y, z)->0.sky_light <= MAX_LIGHT by {
            assert(w.block_at(x, y, z) matches Some(b) ==> b.sky_light <= MAX_LIGHT);
        }
    }
    assert(same_but_light(w0, w2)) by {
        assert forall|x: int, y: int, z: int| #[trigger] w2.block_at(x, y, z) is Some == w0.block_at(x, y, z) is Some by {
            assert(w.block_at(x, y, z) is Some == w0.block_at(x, y, z) is Some);
        }
        assert forall|x: int, y: int, z: int| #[trigger] w2.block_at(x, y, z) is Some implies ({
            let b = w2.block_at(x, y, z)->0;
            let b0 = w0.block_at(x, y, z)->0;
            &&& b.block_type == b0.block_type
            &&& b.tree_id == b0.tree_id
            &&& b.block_light == b0.block_light
        }) by {
            assert(w.block_at(x, y, z) matches Some(b) ==> b.block_type == w0.block_at(x, y, z)->0.block_type && b.tree_id == w0.block_at(x, y, z)->0.tree_id && b.block_light == w0.block_at(x, y, z)->0.block_light);
        }
    }
    assert(lights_grow(w0, w2)) by {
        assert forall|x: int, y: int, z: int| #[trigger] w2.light_at(x, y, z) >= w0.light_at(x, y, z) by {
            assert(w.light_at(x, y, z) >= w0.light_at(x, y, z));
            assert(w2.light_at(x, y, z) >= w.light_at(x, y, z));
        }
    }
    assert forall|x: int, y: int, z: int| #[trigger] wflood_at(w0, w2, q0, q2, p, x, y, z) by {
        assert(wflood_at(w0, w, q0, q, p, x, y, z));
        assert(q2[q.len() as int] == (n.0 as i32, n.1 as i32, n.2 as i32));
        if (x, y, z) == n {
            assert(wqueued(q2, n));
            assert(w2.feeds(n, opposite(d)));
            assert(w2.fed(n));
        } else {
            lemma_grow_at(w, w2, (x, y, z));
            assert(w2.block_at(x, y, z) == w.block_at(x, y, z));
            if wqueued(q, (x, y, z)) {
                let j = choose|j: int| 0 <= j < q.len() && (#[trigger] q[j]).0 as int == x && q[j].1 as int == y && q[j].2 as int == z;
                assert(q2[j] == q[j]);
            }
        }
    }
}


proof fn lemma_wflood_start(w0: World, q0: Seq<(i32, i32, i32)>)
    requires
        w0.wf(),
        w0.lights_bounded(),
    ensures
        wflood_inv(w0, w0, q0, q0, no_pos()),
{
    assert forall|x: int, y: int, z: int| #[trigger] w0.block_at(x, y, z) is Some implies ({
        let b = w0.block_at(x, y, z)->0;
        let b0 = w0.block_at(x, y, z)->0;
        &&& b.block_type == b0.block_type
        &&& b.tree_id == b0.tree_id
        &&& b.block_light == b0.block_light
    }) by {}
}

proof fn lemma_wpop(w0: World, w: World, q0: Seq<(i32, i32, i32)>, q: Seq<(i32, i32, i32)>)
    requires
        wflood_inv(w0, w, q0, q, no_pos()),
        q.len() > 0,
    ensures
        wflood_inv(w0, w, q0, q.drop_first(), (q[0].0 as int, q[0].1 as int, q[0].2 as int)),
{
    let p = (q[0].0 as int, q[0].1 as int, q[0].2 as int);
    assert forall|x: int, y: int, z: int| #[trigger] wflood_at(w0, w, q0, q.drop_first(), p, x, y, z) by {
        assert(wflood_at(w0, w, q0, q, no_pos(), x, y, z));
        if wqueued(q, (x, y, z)) && (x, y, z) != p {
            let j = choose|j: int| 0 <= j < q.len() && (#[trigger] q[j]).0 as int == x && q[j].1 as int == y && q[j].2 as int == z;
            assert(j != 0);
            assert(q.drop_first()[j - 1] == q[j]);
        }
        if (x, y, z) == no_pos() {
            assert forall|d: int| 0 <= d < 6 implies #[trigger] w.reaches_dir(w.light_at(x, y, z), (x, y, z), d) by {
                let n = step((x, y, z), d);
                assert(w.block_at(n.0, n.1, n.2) matches Some(b) ==> b.sky_light >= 0);
            }
        }
    }
}

proof fn lemma_wrelease(w0: World, w: World, q0: Seq<(i32, i32, i32)>, q: Seq<(i32, i32, i32)>, p: Pos)
    requires
        wflood_inv(w0, w, q0, q, p),
        w.spreads(p),
    ensures
        wflood_inv(w0, w, q0, q, no_pos()),
{
    assert forall|x: int, y: int, z: int| #[trigger] wflood_at(w0, w, q0, q, no_pos(), x, y, z) by {
        assert(wflood_at(w0, w, q0, q, p, x, y, z));
        if (x, y, z) == no_pos() {
            assert forall|d: int| 0 <= d < 6 implies #[trigger] w.reaches_dir(w.light_at(x, y, z), (x, y, z), d) by {
                let n = step((x, y, z), d);
                assert(w.block_at(n.0, n.1, n.2) matches Some(b) ==> b.sky_light >= 0);
            }
        }
    }
}

proof fn lemma_wflood_end(w0: World, w: World, q0: Seq<(i32, i32, i32)>, q: Seq<(i32, i32, i32)>)
    requires
        wflood_inv(w0, w, q0, q, no_pos()),
        q.len() == 0,
    ensures
        forall|x: int, y: int, z: int|
            (wqueued(q0, (x, y, z)) || w.light_at(x, y, z) > w0.light_at(x, y, z)) ==> #[trigger] w.spreads((x, y, z)),
        forall|x: int, y: int, z: int|
            w.light_at(x, y, z) > w0.light_at(x, y, z) ==> #[trigger] w.fed((x, y, z)) && w.holds_clear(x, y, z),
{
    assert forall|x: int, y: int, z: int|
        (wqueued(q0, (x, y, z)) || w.light_at(x, y, z) > w0.light_at(x, y, z)) implies #[trigger] w.spreads((x, y, z)) by {
        assert(wflood_at(w0, w, q0, q, no_pos(), x, y, z));
        if (x, y, z) == no_pos() {
            assert forall|d: int| 0 <= d < 6 implies #[trigger] w.reaches_dir(w.light_at(x, y, z), (x, y, z), d) by {
                let n = step((x, y, z), d);
                assert(w.block_at(n.0, n.1, n.2) matches Some(b) ==> b.sky_light >= 0);
            }
        }
    }
    assert forall|x: int, y: int, z: int|
        w.light_at(x, y, z) > w0.light_at(x, y, z) implies #[trigger] w.fed((x, y, z)) && w.holds_clear(x, y, z) by {
        assert(wflood_at(w0, w, q0, q, no_pos(), x, y, z));
    }
}


/// What a block at `p` receives from its neighbour in direction `d`:
/// nothing from a neighbour that blocks light or is dark, otherwise the
/// light that neighbour passes on towards `p`.
pub open spec fn offered(w: World, p: Pos, d: int) -> int {
    let n = step(p, d);
    if w.clear_at(n.0, n.1, n.2) && w.light_at(n.0, n.1, n.2) > 0 {
        passed_on(w.light_at(n.0, n.1, n.2), opposite(d))
    } else {
        0
    }
}

/// The most light offered to `p` by its first `k` neighbours.
pub open spec fn gathered_upto(w: World, p: Pos, k: int) -> int
    decreases k,
{
    if k <= 0 {
        0
    } else {
        let a = gathered_upto(w, p, k - 1);
        let b = offered(w, p, k - 1);
        if b > a {
            b
        } else {
            a
        }
    }
}

/// The most light any neighbour offers to `p`.
pub open spec fn gathered(w: World, p: Pos) -> int {
    gathered_upto(w, p, 6)
}

pub proof fn lemma_gathered_bounds(w: World, p: Pos, k: int)
    requires
        0 <= k <= 6,
        w.lights_bounded(),
    ensures
        0 <= gathered_upto(w, p, k) <= MAX_LIGHT,
        forall|d: int| 0 <= d < k ==> #[trigger] offered(w, p, d) <= gathered_upto(w, p, k),
    decreases k,
{
    if k > 0 {
        lemma_gathered_bounds(w, p, k - 1);
        let n = step(p, k - 1);
        assert(w.block_at(n.0, n.1, n.2) matches Some(b) ==> b.sky_light <= MAX_LIGHT);
    }
}

/// A positive gathered light is offered by one of the neighbours.
pub proof fn lemma_gathered_witness(w: World, p: Pos, k: int)
    requires
        0 <= k <= 6,
    ensures
        gathered_upto(w, p, k) > 0 ==> exists|d: int| 0 <= d < k && #[trigger] offered(w, p, d) == gathered_upto(w, p, k),
    decreases k,
{
    if k > 0 {
        lemma_gathered_witness(w, p, k - 1);
        if offered(w, p, k - 1) > gathered_upto(w, p, k - 1) {
            assert(offered(w, p, k - 1) == gathered_upto(w, p, k));
        } else if gathered_upto(w, p, k) > 0 {
            let d = choose|d: int| 0 <= d < k - 1 && #[trigger] offered(w, p, d) == gathered_upto(w, p, k - 1);
            assert(offered(w, p, d) == gathered_upto(w, p, k));
        }
    }
}

pub proof fn lemma_same_but_light_trans(w1: World, w2: World, w3: World)
    requires
        same_but_light(w1, w2),
        same_but_light(w2, w3),
    ensures
        same_but_light(w1, w3),
{
    assert forall|x: int, y: int, z: int| #[trigger] w3.block_at(x, y, z) is Some == w1.block_at(x, y, z) is Some by {
        assert(w2.block_at(x, y, z) is Some == w1.block_at(x, y, z) is Some);
    }
    assert forall|x: int, y: int, z: int| #[trigger] w3.block_at(x, y, z) is Some implies ({
        let b = w3.block_at(x, y, z)->0;
        let b0 = w1.block_at(x, y, z)->0;
        &&& b.block_type == b0.block_type
        &&& b.tree_id == b0.tree_id
        &&& b.block_light == b0.block_light
    }) by {
        assert(w2.block_at(x, y, z) is Some);
    }
}

pub proof fn lemma_grow_trans(w1: World, w2: World, w3: World)
    requires
        lights_grow(w1, w2),
        lights_grow(w2, w3),
    ensures
        lights_grow(w1, w3),
{
    assert forall|x: int, y: int, z: int| #[trigger] w3.light_at(x, y, z) >= w1.light_at(x, y, z) by {
        assert(w2.light_at(x, y, z) >= w1.light_at(x, y, z));
    }
}

/// `w2` is `w` with the sky light at `p` set to `level` (if `p` is loaded).
pub open spec fn light_set(w: World, w2: World, p: Pos, level: int) -> bool {
    &&& w2.chunk_map().dom() == w.chunk_map().dom()
    &&& forall|x: int, y: int, z: int|
        #[trigger] w2.block_at(x, y, z) == if (x, y, z) == p {
            match w.block_at(x, y, z) {
                Some(b) => Some(Block { sky_light: level as u8, ..b }),
                None => None,
            }
        } else {
            w.block_at(x, y, z)
        }
}

pub proof fn lemma_light_set_same(w: World, w2: World, p: Pos, level: int)
    requires
        light_set(w, w2, p, level),
        0 <= level <= MAX_LIGHT,
        w.lights_bounded(),
    ensures
        same_but_light(w, w2),
        w2.lights_bounded(),
{
    assert forall|x: int, y: int, z: int| #[trigger] w2.block_at(x, y, z) is Some == w.block_at(x, y, z) is Some by {}
    assert forall|x: int, y: int, z: int| #[trigger] w2.block_at(x, y, z) is Some implies ({
        let b = w2.block_at(x, y, z)->0;
        let b0 = w.block_at(x, y, z)->0;
        &&& b.block_type == b0.block_type
        &&& b.tree_id == b0.tree_id
        &&& b.block_light == b0.block_light
    }) by {}
    assert forall|x: int, y: int, z: int| #[trigger] w2.block_at(x, y, z) is Some implies w2.block_at(x, y, z)->0.sky_light <= MAX_LIGHT by {
        assert(w.block_at(x, y, z) matches Some(b) ==> b.sky_light <= MAX_LIGHT);
    }
}


/// Every light that changed from `w0` to `w` is either out, or lit by a
/// neighbour that passes on at least that much.
pub open spec fn changes_accounted(w0: World, w: World) -> bool {
    forall|x: int, y: int, z: int|
        #[trigger] w.light_at(x, y, z) != w0.light_at(x, y, z) ==> w.light_at(x, y, z) == 0 || w.fed((x, y, z))
}

/// Opaque blocks that were dark in `w0` are still dark in `w`.
pub open spec fn dark_stays_dark(w0: World, w: World) -> bool {
    forall|x: int, y: int, z: int|
        #[trigger] w0.block_at(x, y, z) matches Some(b) && !type_is_transparent(b.block_type)
            && b.sky_light == 0 ==> w.light_at(x, y, z) == 0
}


/// Light falls from `a` to its neighbour `b` in direction `d` when the
/// opaque block placed at `p`, which had light `l`, takes away light: `b`
/// is lit more dimly than `a` (taking `l` for `p` itself), or `b` lies
/// straight below `a` and both have full light.
pub open spec fn falls_to(w: World, p: Pos, l: int, a: Pos, d: int, b: Pos) -> bool {
    let la = if a == p {
        l
    } else {
        w.light_at(a.0, a.1, a.2)
    };
    &&& 0 <= d < 6
    &&& b == step(a, d)
    &&& (w.light_at(b.0, b.1, b.2) < la || (d == DOWN && la == MAX_LIGHT && w.light_at(b.0, b.1, b.2)
        == MAX_LIGHT))
}

/// `path` leads from `p` by the steps `dirs`, light falling at each step,
/// without coming back to `p`.
pub open spec fn dim_path(w: World, p: Pos, l: int, path: Seq<Pos>, dirs: Seq<int>) -> bool {
    &&& path.len() == dirs.len() + 1
    &&& path[0] == p
    &&& forall|i: int| 0 < i < path.len() ==> #[trigger] path[i] != p
    &&& forall|i: int| 0 <= i < dirs.len() ==> #[trigger] falls_to(w, p, l, path[i], dirs[i], path[i + 1])
}

/// `x` may have been lit through `p`: a path of falling light leads from
/// `p` to `x` in `w`.
pub open spec fn lit_through(w: World, p: Pos, l: int, x: Pos) -> bool {
    exists|path: Seq<Pos>, dirs: Seq<int>| #[trigger] dim_path(w, p, l, path, dirs) && path[path.len() - 1] == x
}

pub proof fn lemma_lit_start(w: World, p: Pos, l: int)
    ensures
        lit_through(w, p, l, p),
{
    let path = seq![p];
    let dirs = Seq::<int>::empty();
    assert(dim_path(w, p, l, path, dirs));
}

pub proof fn lemma_lit_extend(w: World, p: Pos, l: int, a: Pos, d: int)
    requires
        lit_through(w, p, l, a),
        falls_to(w, p, l, a, d, step(a, d)),
        step(a, d) != p,
    ensures
        lit_through(w, p, l, step(a, d)),
{
    let (path, dirs) = choose|path: Seq<Pos>, dirs: Seq<int>| #[trigger] dim_path(w, p, l, path, dirs) && path[path.len() - 1] == a;
    let b = step(a, d);
    let path2 = path.push(b);
    let dirs2 = dirs.push(d);
    assert forall|i: int| 0 < i < path2.len() implies #[trigger] path2[i] != p by {
        if i < path.len() {
            assert(path2[i] == path[i]);
        }
    }
    assert forall|i: int| 0 <= i < dirs2.len() implies #[trigger] falls_to(w, p, l, path2[i], dirs2[i], path2[i + 1]) by {
        if i < dirs.len() {
            assert(path2[i] == path[i] && path2[i + 1] == path[i + 1] && dirs2[i] == dirs[i]);
            assert(falls_to(w, p, l, path[i], dirs[i], path[i + 1]));
        } else {
            assert(path2[i] == a && dirs2[i] == d && path2[i + 1] == b);
        }
    }
    assert(dim_path(w, p, l, path2, dirs2));
    assert(path2[path2.len() - 1] == b);
}

/// A path of falling light stays one when only the light at `p` differs.
pub proof fn lemma_lit_transfer(w1: World, w: World, p: Pos, l: int, x: Pos)
    requires
        lit_through(w1, p, l, x),
        forall|a: int, b: int, c: int| (a, b, c) != p ==> #[trigger] w.light_at(a, b, c) == w1.light_at(a, b, c),
    ensures
        lit_through(w, p, l, x),
{
    let (path, dirs) = choose|path: Seq<Pos>, dirs: Seq<int>| #[trigger] dim_path(w1, p, l, path, dirs) && path[path.len() - 1] == x;
    assert forall|i: int| 0 <= i < dirs.len() implies #[trigger] falls_to(w, p, l, path[i], dirs[i], path[i + 1]) by {
        assert(falls_to(w1, p, l, path[i], dirs[i], path[i + 1]));
        assert(path[i + 1] != p);
        let a = path[i];
        let b = path[i + 1];
        assert(w.light_at(b.0, b.1, b.2) == w1.light_at(b.0, b.1, b.2));
        if a != p {
            assert(w.light_at(a.0, a.1, a.2) == w1.light_at(a.0, a.1, a.2));
        }
    }
    assert(dim_path(w, p, l, path, dirs));
}

/// Along a path of falling light from `p`, every position after the first
/// is dimmer than `p`'s light `l`, or lies in the full-light column right
/// below `p` at the depth of its step.
proof fn lemma_path_levels(w: World, p: Pos, l: int, path: Seq<Pos>, dirs: Seq<int>, i: int)
    requires
        dim_path(w, p, l, path, dirs),
        l <= MAX_LIGHT,
        0 < i < path.len(),
    ensures
        w.light_at(path[i].0, path[i].1, path[i].2) < l || (l == MAX_LIGHT && path[i] == (p.0, p.1 - i, p.2)
            && w.light_at(path[i].0, path[i].1, path[i].2) == MAX_LIGHT),
    decreases i,
{
    let j = i - 1;
    assert(falls_to(w, p, l, path[j], dirs[j], path[j + 1]));
    assert(path[j + 1] == path[i]);
    if i > 1 {
        lemma_path_levels(w, p, l, path, dirs, i - 1);
        assert(path[i - 1] != p);
    }
}

/// A position lit through `p` (other than `p`) is dimmer than `p`'s light
/// `l`, or lies in the full-light column straight below `p`.
pub proof fn lemma_lit_bound(w: World, p: Pos, l: int, x: Pos)
    requires
        lit_through(w, p, l, x),
        l <= MAX_LIGHT,
        x != p,
    ensures
        w.light_at(x.0, x.1, x.2) < l || (l == MAX_LIGHT && x.0 == p.0 && x.2 == p.2 && x.1 < p.1
            && w.light_at(x.0, x.1, x.2) == MAX_LIGHT),
{
    let (path, dirs) = choose|path: Seq<Pos>, dirs: Seq<int>| #[trigger] dim_path(w, p, l, path, dirs) && path[path.len() - 1] == x;
    lemma_path_levels(w, p, l, path, dirs, path.len() - 1);
}

/// After an opaque block is placed at `p` (`w0` before, `w1` with the block
/// replaced, `w` relit), every block that lost light was lit through `p`.
proof fn lemma_placed_dims(w0: World, w1: World, w: World, p: Pos, l: int)
    requires
        l == w0.light_at(p.0, p.1, p.2),
        forall|x: int, y: int, z: int|
            (x, y, z) != p && (#[trigger] w0.block_at(x, y, z)) is Some ==> w1.block_at(x, y, z) == w0.block_at(x, y, z),
        loaded(w0, p) ==> forall|x: int, y: int, z: int| (x, y, z) != p ==> #[trigger] w1.block_at(x, y, z) == w0.block_at(x, y, z),
        w0.block_at(p.0, p.1, p.2) is None ==> !loaded(w0, p) || !(0 <= p.1 < CHUNK_HEIGHT) || !is_i32(p.0) || !is_i32(p.2),
        forall|x: int, y: int, z: int|
            #[trigger] w.light_at(x, y, z) < w1.light_at(x, y, z) ==> lit_through(w1, p, l, (x, y, z)),
        l == 0 ==> w == w1,
    ensures
        forall|x: int, y: int, z: int|
            #[trigger] w.light_at(x, y, z) < w0.light_at(x, y, z) ==> lit_through(w0, p, l, (x, y, z)),
{
    assert forall|x: int, y: int, z: int|
        #[trigger] w.light_at(x, y, z) < w0.light_at(x, y, z) implies lit_through(w0, p, l, (x, y, z)) by {
        assert(w0.block_at(x, y, z) is Some);
        if (x, y, z) == p {
            lemma_lit_start(w0, p, l);
        } else {
            assert(w1.block_at(x, y, z) == w0.block_at(x, y, z));
            assert(w.light_at(x, y, z) < w1.light_at(x, y, z));
            if l == 0 {
                assert(false);
            }
            assert(loaded(w0, p));
            assert forall|a: int, b: int, c: int| (a, b, c) != p implies #[trigger] w0.light_at(a, b, c) == w1.light_at(a, b, c) by {
                assert(w1.block_at(a, b, c) == w0.block_at(a, b, c));
            }
            lemma_lit_transfer(w1, w0, p, l, (x, y, z));
        }
    }
}

/// The first `k` blocks straight below `p` all have full light.
pub open spec fn col_full(w: World, p: Pos, k: int) -> bool {
    forall|j: int| 1 <= j <= k ==> #[trigger] w.light_at(p.0, p.1 - j, p.2) == MAX_LIGHT
}

/// While darkening below a block that took away full light: each block of
/// the full-light column below it is dark, or the block above it is still
/// waiting, being worked on (its downward neighbour not yet seen to), or
/// still has full light.
spec fn col_shading(
    w0: World,
    w: World,
    rq: Seq<((i32, i32, i32), u8)>,
    p: Pos,
    cur: Pos,
    d: int,
) -> bool {
    forall|k: int|
        k >= 1 && #[trigger] col_full(w0, p, k) ==> {
            ||| w.light_at(p.0, p.1 - k, p.2) == 0
            ||| rpending(rq, (p.0, p.1 - (k - 1), p.2))
            ||| (cur == (p.0, p.1 - (k - 1), p.2) && d <= DOWN)
            ||| w.light_at(p.0, p.1 - (k - 1), p.2) == MAX_LIGHT
        }
}

proof fn lemma_col_pop(w0: World, w: World, rq: Seq<((i32, i32, i32), u8)>, p: Pos)
    requires
        col_shading(w0, w, rq, p, no_pos(), 6),
        rq.len() > 0,
    ensures
        col_shading(w0, w, rq.drop_first(), p, (rq[0].0.0 as int, rq[0].0.1 as int, rq[0].0.2 as int), 0),
{
    let cur = (rq[0].0.0 as int, rq[0].0.1 as int, rq[0].0.2 as int);
    assert forall|k: int| k >= 1 && #[trigger] col_full(w0, p, k) implies {
        ||| w.light_at(p.0, p.1 - k, p.2) == 0
        ||| rpending(rq.drop_first(), (p.0, p.1 - (k - 1), p.2))
        ||| (cur == (p.0, p.1 - (k - 1), p.2) && 0 <= DOWN)
        ||| w.light_at(p.0, p.1 - (k - 1), p.2) == MAX_LIGHT
    } by {
        let y = (p.0, p.1 - (k - 1), p.2);
        if rpending(rq, y) && y != cur {
            let j = choose|j: int| 0 <= j < rq.len() && (#[trigger] rq[j]).0.0 as int == y.0 && rq[j].0.1 as int == y.1
                && rq[j].0.2 as int == y.2;
            assert(j != 0);
            assert(rq.drop_first()[j - 1] == rq[j]);
        }
    }
}

/// A step of the darkening that darkens nothing and may only add to the
/// queue, where the downward neighbour of a column block being worked on
/// is already dark.
proof fn lemma_col_keep(
    w0: World,
    w: World,
    rq: Seq<((i32, i32, i32), u8)>,
    rq2: Seq<((i32, i32, i32), u8)>,
    p: Pos,
    cur: Pos,
    d: int,
)
    requires
        col_shading(w0, w, rq, p, cur, d),
        rq.len() <= rq2.len(),
        forall|j: int| 0 <= j < rq.len() ==> #[trigger] rq2[j] == rq[j],
        forall|k: int|
            k >= 1 && #[trigger] col_full(w0, p, k) && cur == (p.0, p.1 - (k - 1), p.2) && d == DOWN ==> w.light_at(
                p.0,
                p.1 - k,
                p.2,
            ) == 0,
    ensures
        col_shading(w0, w, rq2, p, cur, d + 1),
{
    assert forall|k: int| k >= 1 && #[trigger] col_full(w0, p, k) implies {
        ||| w.light_at(p.0, p.1 - k, p.2) == 0
        ||| rpending(rq2, (p.0, p.1 - (k - 1), p.2))
        ||| (cur == (p.0, p.1 - (k - 1), p.2) && d + 1 <= DOWN)
        ||| w.light_at(p.0, p.1 - (k - 1), p.2) == MAX_LIGHT
    } by {
        let y = (p.0, p.1 - (k - 1), p.2);
        if rpending(rq, y) {
            let j = choose|j: int| 0 <= j < rq.len() && (#[trigger] rq[j]).0.0 as int == y.0 && rq[j].0.1 as int == y.1
                && rq[j].0.2 as int == y.2;
            assert(rq2[j] == rq[j]);
        }
    }
}

/// Darkening the neighbour of `cur` in direction `d` and queueing it.
proof fn lemma_col_darken(
    w0: World,
    w1: World,
    w: World,
    rq: Seq<((i32, i32, i32), u8)>,
    rq2: Seq<((i32, i32, i32), u8)>,
    p: Pos,
    cur: Pos,
    d: int,
)
    requires
        col_shading(w0, w1, rq, p, cur, d),
        0 <= d < 6,
        light_set(w1, w, step(cur, d), 0),
        rq2.len() == rq.len() + 1,
        forall|j: int| 0 <= j < rq.len() ==> #[trigger] rq2[j] == rq[j],
        rq2[rq.len() as int].0.0 as int == step(cur, d).0,
        rq2[rq.len() as int].0.1 as int == step(cur, d).1,
        rq2[rq.len() as int].0.2 as int == step(cur, d).2,
    ensures
        col_shading(w0, w, rq2, p, cur, d + 1),
{
    let np = step(cur, d);
    assert forall|k: int| k >= 1 && #[trigger] col_full(w0, p, k) implies {
        ||| w.light_at(p.0, p.1 - k, p.2) == 0
        ||| rpending(rq2, (p.0, p.1 - (k - 1), p.2))
        ||| (cur == (p.0, p.1 - (k - 1), p.2) && d + 1 <= DOWN)
        ||| w.light_at(p.0, p.1 - (k - 1), p.2) == MAX_LIGHT
    } by {
        let y = (p.0, p.1 - (k - 1), p.2);
        let qk = (p.0, p.1 - k, p.2);
        assert(w.block_at(qk.0, qk.1, qk.2) == w.block_at(qk.0, qk.1, qk.2));
        assert(w.block_at(y.0, y.1, y.2) == w.block_at(y.0, y.1, y.2));
        if rpending(rq, y) {
            let j = choose|j: int| 0 <= j < rq.len() && (#[trigger] rq[j]).0.0 as int == y.0 && rq[j].0.1 as int == y.1
                && rq[j].0.2 as int == y.2;
            assert(rq2[j] == rq[j]);
        } else if y == np {
            assert(rq2[rq.len() as int] == rq2[rq.len() as int]);
        }
    }
}

/// Once the darkening is done, the full-light column below the block is
/// dark all the way down.
proof fn lemma_column_dark(w0: World, w: World, p: Pos, k: int)
    requires
        col_shading(w0, w, Seq::empty(), p, no_pos(), 6),
        w.light_at(p.0, p.1, p.2) == 0,
        k >= 1,
        col_full(w0, p, k),
    ensures
        w.light_at(p.0, p.1 - k, p.2) == 0,
    decreases k,
{
    if k > 1 {
        assert(col_full(w0, p, k - 1));
        lemma_column_dark(w0, w, p, k - 1);
    }
    assert(col_full(w0, p, k));
}

/// Relighting cannot bring full light back into a column that was dark all
/// the way down from an opaque block: full light only comes from above.
proof fn lemma_column_stays_shaded(w0: World, w2: World, w: World, p: Pos, k: int)
    requires
        w.lights_bounded(),
        w.light_at(p.0, p.1, p.2) == 0,
        forall|j: int| 1 <= j <= k ==> #[trigger] w2.light_at(p.0, p.1 - j, p.2) == 0,
        forall|x: int, y: int, z: int| #[trigger] w.light_at(x, y, z) > w2.light_at(x, y, z) ==> w.fed((x, y, z)),
        k >= 1,
    ensures
        w.light_at(p.0, p.1 - k, p.2) < MAX_LIGHT,
    decreases k,
{
    let q = (p.0, p.1 - k, p.2);
    if k > 1 {
        lemma_column_stays_shaded(w0, w2, w, p, k - 1);
    }
    if w.light_at(q.0, q.1, q.2) == MAX_LIGHT {
        assert(w2.light_at(q.0, q.1, q.2) == 0);
        assert(w.fed(q));
        let d = choose|d: int| 0 <= d < 6 && #[trigger] w.feeds(q, d);
        let n = step(q, d);
        assert(w.block_at(n.0, n.1, n.2) matches Some(b) ==> b.sky_light <= MAX_LIGHT);
        assert(d == UP);
        assert(n == (p.0, p.1 - (k - 1), p.2));
    }
}

/// After darkening and relighting (`w2` darkened, `w` relit), the
/// full-light column below an opaque block that took away full light has
/// no full light left.
proof fn lemma_column_after(w0: World, w2: World, w: World, p: Pos, rq: Seq<((i32, i32, i32), u8)>)
    requires
        col_shading(w0, w2, rq, p, no_pos(), 6),
        rq.len() == 0,
        w2.light_at(p.0, p.1, p.2) == 0,
        w.light_at(p.0, p.1, p.2) == 0,
        w.lights_bounded(),
        forall|x: int, y: int, z: int| #[trigger] w.light_at(x, y, z) > w2.light_at(x, y, z) ==> w.fed((x, y, z)),
    ensures
        forall|k: int| k >= 1 && #[trigger] col_full(w0, p, k) ==> w.light_at(p.0, p.1 - k, p.2) < MAX_LIGHT,
{
    assert(rq =~= Seq::<((i32, i32, i32), u8)>::empty());
    assert forall|k: int| k >= 1 && #[trigger] col_full(w0, p, k) implies w.light_at(p.0, p.1 - k, p.2) < MAX_LIGHT by {
        assert forall|j: int| 1 <= j <= k implies #[trigger] w2.light_at(p.0, p.1 - j, p.2) == 0 by {
            assert(col_full(w0, p, j));
            lemma_column_dark(w0, w2, p, j);
        }
        lemma_column_stays_shaded(w0, w2, w, p, k);
    }
}

/// The column's shade carries over from the world with the block replaced
/// (`w1`) to the world before (`w0`).
proof fn lemma_column_transfer(w0: World, w1: World, w: World, p: Pos)
    requires
        w0.light_at(p.0, p.1, p.2) == MAX_LIGHT,
        loaded(w0, p) ==> forall|x: int, y: int, z: int| (x, y, z) != p ==> #[trigger] w1.block_at(x, y, z) == w0.block_at(x, y, z),
        forall|k: int| k >= 1 && #[trigger] col_full(w1, p, k) ==> w.light_at(p.0, p.1 - k, p.2) < MAX_LIGHT,
    ensures
        forall|k: int| k >= 1 && #[trigger] col_full(w0, p, k) ==> w.light_at(p.0, p.1 - k, p.2) < MAX_LIGHT,
{
    assert(w0.block_at(p.0, p.1, p.2) is Some);
    assert(loaded(w0, p));
    assert forall|k: int| k >= 1 && #[trigger] col_full(w0, p, k) implies w.light_at(p.0, p.1 - k, p.2) < MAX_LIGHT by {
        assert forall|j: int| 1 <= j <= k implies #[trigger] w1.light_at(p.0, p.1 - j, p.2) == MAX_LIGHT by {
            assert(w0.light_at(p.0, p.1 - j, p.2) == MAX_LIGHT);
            assert(w1.block_at(p.0, p.1 - j, p.2) == w0.block_at(p.0, p.1 - j, p.2));
        }
        assert(col_full(w1, p, k));
    }
}

/// Every neighbour among the first `k` directions into which light falls
/// from `a` is dark.
pub open spec fn falls_done(w0: World, w: World, p: Pos, l: int, a: Pos, k: int) -> bool {
    forall|e: int|
        0 <= e < k && #[trigger] falls_to(w0, p, l, a, e, step(a, e)) ==> w.light_at(
            step(a, e).0,
            step(a, e).1,
            step(a, e).2,
        ) == 0
}

/// While darkening: every position whose light went out, and `p` itself,
/// is being worked on, still waits, or has darkened every neighbour its
/// light fell into.
spec fn fall_inv(
    w0: World,
    w: World,
    rq: Seq<((i32, i32, i32), u8)>,
    p: Pos,
    l: int,
    has_cur: bool,
    cur: Pos,
) -> bool {
    forall|x: int, y: int, z: int|
        (#[trigger] w.light_at(x, y, z) != w0.light_at(x, y, z) || (x, y, z) == p) ==> (has_cur && (x, y, z)
            == cur) || rpending(rq, (x, y, z)) || falls_done(w0, w, p, l, (x, y, z), 6)
}

proof fn lemma_falls_darker(w0: World, w1: World, w: World, p: Pos, l: int, a: Pos, k: int)
    requires
        falls_done(w0, w1, p, l, a, k),
        forall|x: int, y: int, z: int| #[trigger] w1.light_at(x, y, z) == 0 ==> w.light_at(x, y, z) == 0,
    ensures
        falls_done(w0, w, p, l, a, k),
{
    assert forall|e: int| 0 <= e < k && #[trigger] falls_to(w0, p, l, a, e, step(a, e)) implies w.light_at(
        step(a, e).0,
        step(a, e).1,
        step(a, e).2,
    ) == 0 by {
        assert(w1.light_at(step(a, e).0, step(a, e).1, step(a, e).2) == 0);
    }
}

proof fn lemma_fall_pop(w0: World, w: World, rq: Seq<((i32, i32, i32), u8)>, p: Pos, l: int)
    requires
        fall_inv(w0, w, rq, p, l, false, p),
        rq.len() > 0,
    ensures
        fall_inv(w0, w, rq.drop_first(), p, l, true, (rq[0].0.0 as int, rq[0].0.1 as int, rq[0].0.2 as int)),
{
    let cur = (rq[0].0.0 as int, rq[0].0.1 as int, rq[0].0.2 as int);
    assert forall|x: int, y: int, z: int|
        (#[trigger] w.light_at(x, y, z) != w0.light_at(x, y, z) || (x, y, z) == p) implies (true && (x, y, z) == cur)
            || rpending(rq.drop_first(), (x, y, z)) || falls_done(w0, w, p, l, (x, y, z), 6) by {
        if rpending(rq, (x, y, z)) && (x, y, z) != cur {
            let j = choose|j: int| 0 <= j < rq.len() && (#[trigger] rq[j]).0.0 as int == x && rq[j].0.1 as int == y
                && rq[j].0.2 as int == z;
            assert(j != 0);
            assert(rq.drop_first()[j - 1] == rq[j]);
        }
    }
}

/// Leaving the queue and the lights as they are, with the neighbour of
/// `cur` in direction `d` dark or not one light falls into.
proof fn lemma_fall_keep(
    w0: World,
    w: World,
    rq: Seq<((i32, i32, i32), u8)>,
    rq2: Seq<((i32, i32, i32), u8)>,
    p: Pos,
    l: int,
    cur: Pos,
    d: int,
)
    requires
        fall_inv(w0, w, rq, p, l, true, cur),
        falls_done(w0, w, p, l, cur, d),
        0 <= d < 6,
        falls_to(w0, p, l, cur, d, step(cur, d)) ==> w.light_at(step(cur, d).0, step(cur, d).1, step(cur, d).2) == 0,
        rq.len() <= rq2.len(),
        forall|j: int| 0 <= j < rq.len() ==> #[trigger] rq2[j] == rq[j],
    ensures
        fall_inv(w0, w, rq2, p, l, true, cur),
        falls_done(w0, w, p, l, cur, d + 1),
{
    assert forall|x: int, y: int, z: int|
        (#[trigger] w.light_at(x, y, z) != w0.light_at(x, y, z) || (x, y, z) == p) implies (true && (x, y, z) == cur)
            || rpending(rq2, (x, y, z)) || falls_done(w0, w, p, l, (x, y, z), 6) by {
        if rpending(rq, (x, y, z)) {
            let j = choose|j: int| 0 <= j < rq.len() && (#[trigger] rq[j]).0.0 as int == x && rq[j].0.1 as int == y
                && rq[j].0.2 as int == z;
            assert(rq2[j] == rq[j]);
        }
    }
}

/// Darkening the neighbour of `cur` in direction `d` and queueing it.
proof fn lemma_fall_darken(
    w0: World,
    w1: World,
    w: World,
    rq: Seq<((i32, i32, i32), u8)>,
    rq2: Seq<((i32, i32, i32), u8)>,
    p: Pos,
    l: int,
    cur: Pos,
    d: int,
)
    requires
        fall_inv(w0, w1, rq, p, l, true, cur),
        falls_done(w0, w1, p, l, cur, d),
        0 <= d < 6,
        light_set(w1, w, step(cur, d), 0),
        rq2.len() == rq.len() + 1,
        forall|j: int| 0 <= j < rq.len() ==> #[trigger] rq2[j] == rq[j],
        rq2[rq.len() as int].0.0 as int == step(cur, d).0,
        rq2[rq.len() as int].0.1 as int == step(cur, d).1,
        rq2[rq.len() as int].0.2 as int == step(cur, d).2,
    ensures
        fall_inv(w0, w, rq2, p, l, true, cur),
        falls_done(w0, w, p, l, cur, d + 1),
{
    let np = step(cur, d);
    assert forall|x: int, y: int, z: int| #[trigger] w1.light_at(x, y, z) == 0 implies w.light_at(x, y, z) == 0 by {
        assert(w.block_at(x, y, z) == w.block_at(x, y, z));
    }
    lemma_falls_darker(w0, w1, w, p, l, cur, d);
    assert(w.block_at(np.0, np.1, np.2) == w.block_at(np.0, np.1, np.2));
    assert forall|x: int, y: int, z: int|
        (#[trigger] w.light_at(x, y, z) != w0.light_at(x, y, z) || (x, y, z) == p) implies (true && (x, y, z) == cur)
            || rpending(rq2, (x, y, z)) || falls_done(w0, w, p, l, (x, y, z), 6) by {
        if (x, y, z) == np {
            assert(rq2[rq.len() as int] == rq2[rq.len() as int]);
        } else {
            assert(w.block_at(x, y, z) == w1.block_at(x, y, z));
            assert(w1.light_at(x, y, z) != w0.light_at(x, y, z) || (x, y, z) == p);
            if rpending(rq, (x, y, z)) {
                let j = choose|j: int| 0 <= j < rq.len() && (#[trigger] rq[j]).0.0 as int == x && rq[j].0.1 as int == y
                    && rq[j].0.2 as int == z;
                assert(rq2[j] == rq[j]);
            } else if (x, y, z) != cur {
                lemma_falls_darker(w0, w1, w, p, l, (x, y, z), 6);
            }
        }
    }
}

/// Done with `cur`: every neighbour its light fell into is dark.
proof fn lemma_fall_release(w0: World, w: World, rq: Seq<((i32, i32, i32), u8)>, p: Pos, l: int, cur: Pos)
    requires
        fall_inv(w0, w, rq, p, l, true, cur),
        falls_done(w0, w, p, l, cur, 6),
    ensures
        fall_inv(w0, w, rq, p, l, false, cur),
{
}

/// Once the darkening is done, every position lit through `p` is dark.
proof fn lemma_lit_dark(w0: World, w: World, p: Pos, l: int, x: Pos)
    requires
        fall_inv(w0, w, Seq::empty(), p, l, false, p),
        forall|a: int, b: int, c: int| #[trigger] w.light_at(a, b, c) != w0.light_at(a, b, c) ==> w.light_at(a, b, c) == 0,
        w.light_at(p.0, p.1, p.2) == 0,
        lit_through(w0, p, l, x),
    ensures
        w.light_at(x.0, x.1, x.2) == 0,
{
    let (path, dirs) = choose|path: Seq<Pos>, dirs: Seq<int>| #[trigger] dim_path(w0, p, l, path, dirs) && path[path.len() - 1] == x;
    lemma_path_dark(w0, w, p, l, path, dirs, path.len() - 1);
}

proof fn lemma_path_dark(w0: World, w: World, p: Pos, l: int, path: Seq<Pos>, dirs: Seq<int>, i: int)
    requires
        fall_inv(w0, w, Seq::empty(), p, l, false, p),
        forall|a: int, b: int, c: int| #[trigger] w.light_at(a, b, c) != w0.light_at(a, b, c) ==> w.light_at(a, b, c) == 0,
        w.light_at(p.0, p.1, p.2) == 0,
        dim_path(w0, p, l, path, dirs),
        0 <= i < path.len(),
    ensures
        w.light_at(path[i].0, path[i].1, path[i].2) == 0,
    decreases i,
{
    if i > 0 {
        lemma_path_dark(w0, w, p, l, path, dirs, i - 1);
        let j = i - 1;
        let a = path[j];
        assert(falls_to(w0, p, l, path[j], dirs[j], path[j + 1]));
        assert(path[j + 1] == path[i]);
        assert(w.light_at(a.0, a.1, a.2) == 0);
        if a != p && w0.light_at(a.0, a.1, a.2) == 0 {
            assert(w0.block_at(a.0, a.1, a.2) matches Some(b) ==> b.sky_light >= 0);
            assert(w0.light_at(path[i].0, path[i].1, path[i].2) >= 0);
        } else {
            assert(w.light_at(a.0, a.1, a.2) != w0.light_at(a.0, a.1, a.2) || a == p);
            assert(!rpending(Seq::<((i32, i32, i32), u8)>::empty(), a));
            assert(falls_done(w0, w, p, l, a, 6));
            assert(falls_to(w0, p, l, a, dirs[j], step(a, dirs[j])));
        }
    }
}

/// Only `p` itself is lit through `p` when no light was taken away.
pub proof fn lemma_lit_zero(w: World, p: Pos, x: Pos)
    requires
        lit_through(w, p, 0, x),
    ensures
        x == p,
{
    let (path, dirs) = choose|path: Seq<Pos>, dirs: Seq<int>| #[trigger] dim_path(w, p, 0, path, dirs) && path[path.len() - 1] == x;
    if path.len() > 1 {
        let j: int = 0;
        assert(falls_to(w, p, 0, path[j], dirs[j], path[j + 1]));
        let b = path[1];
        assert(w.block_at(b.0, b.1, b.2) matches Some(bl) ==> bl.sky_light >= 0);
    }
}

/// After an opaque block is placed at `p` (`w0` before, `w1` with the block
/// replaced, `w` relit), every block lit through `p` is dark or fed.
proof fn lemma_placed_lit(w0: World, w1: World, w: World, p: Pos, l: int)
    requires
        l == w0.light_at(p.0, p.1, p.2),
        loaded(w0, p) ==> forall|x: int, y: int, z: int| (x, y, z) != p ==> #[trigger] w1.block_at(x, y, z) == w0.block_at(x, y, z),
        l > 0 ==> forall|x: int, y: int, z: int|
            #[trigger] lit_through(w1, p, l, (x, y, z)) ==> w.light_at(x, y, z) == 0 || w.fed((x, y, z)),
        w.light_at(p.0, p.1, p.2) == 0,
    ensures
        forall|x: int, y: int, z: int|
            #[trigger] lit_through(w0, p, l, (x, y, z)) ==> w.light_at(x, y, z) == 0 || w.fed((x, y, z)),
{
    assert forall|x: int, y: int, z: int| #[trigger] lit_through(w0, p, l, (x, y, z)) implies w.light_at(x, y, z) == 0
        || w.fed((x, y, z)) by {
        if l == 0 {
            lemma_lit_zero(w0, p, (x, y, z));
        } else {
            assert(w0.block_at(p.0, p.1, p.2) is Some);
            assert(loaded(w0, p));
            assert forall|a: int, b: int, c: int| (a, b, c) != p implies #[trigger] w1.light_at(a, b, c) == w0.light_at(a, b, c) by {
                assert(w1.block_at(a, b, c) == w0.block_at(a, b, c));
            }
            lemma_lit_transfer(w0, w1, p, l, (x, y, z));
        }
    }
}

/// A darkening queue entry: a position lit through `p`, with the light it
/// had (`l` for `p` itself).
pub open spec fn entry_ok(w: World, p: Pos, l: int, e: ((i32, i32, i32), u8)) -> bool {
    let x = (e.0.0 as int, e.0.1 as int, e.0.2 as int);
    &&& lit_through(w, p, l, x)
    &&& e.1 as int == (if x == p {
        l
    } else {
        w.light_at(x.0, x.1, x.2)
    })
}

/// `p` holds at least the light that its neighbour in direction `d` passes
/// on to it, if that neighbour is lit.
pub open spec fn takes_from(w: World, p: Pos, d: int) -> bool {
    let n = step(p, d);
    w.light_at(n.0, n.1, n.2) > 0 ==> w.light_at(p.0, p.1, p.2) >= passed_on(
        w.light_at(n.0, n.1, n.2),
        opposite(d),
    )
}

/// Every block that lost light from `w0` to `w` and lets light through
/// holds at least what each lit neighbour passes on to it.
pub open spec fn dimmed_relit(w0: World, w: World) -> bool {
    forall|x: int, y: int, z: int, d: int|
        0 <= d < 6 && w.light_at(x, y, z) < w0.light_at(x, y, z) && w.holds_clear(x, y, z)
            ==> #[trigger] takes_from(w, (x, y, z), d)
}

/// A block that takes what each lit neighbour passes on, and whose light is
/// out or fed by a neighbour, holds exactly the most light its neighbours
/// offer, when no opaque block holds light.
pub proof fn lemma_settled_at(w: World, p: Pos)
    requires
        w.lights_bounded(),
        w.opaque_dark(),
        forall|d: int| 0 <= d < 6 ==> #[trigger] takes_from(w, p, d),
        w.light_at(p.0, p.1, p.2) == 0 || w.fed(p),
    ensures
        w.light_at(p.0, p.1, p.2) == gathered(w, p),
{
    lemma_gathered_bounds(w, p, 6);
    lemma_gathered_witness(w, p, 6);
    assert forall|d: int| 0 <= d < 6 implies #[trigger] offered(w, p, d) <= w.light_at(p.0, p.1, p.2) by {
        assert(takes_from(w, p, d));
        assert(w.block_at(p.0, p.1, p.2) matches Some(b) ==> b.sky_light >= 0);
    }
    if gathered(w, p) > 0 {
        let d = choose|d: int| 0 <= d < 6 && #[trigger] offered(w, p, d) == gathered_upto(w, p, 6);
        assert(offered(w, p, d) <= w.light_at(p.0, p.1, p.2));
    }
    if w.light_at(p.0, p.1, p.2) > 0 {
        let d = choose|d: int| 0 <= d < 6 && #[trigger] w.feeds(p, d);
        let n = step(p, d);
        assert(w.block_at(n.0, n.1, n.2) is Some);
        assert(offered(w, p, d) <= gathered(w, p));
    }
}

/// After an opaque block is placed at `p` (`w0` before, `w1` with the block
/// replaced, `w` relit), every transparent block that lost light holds
/// exactly the most light its neighbours offer.
proof fn lemma_dimmed_settle(w0: World, w1: World, w: World, p: Pos)
    requires
        w.lights_bounded(),
        w.opaque_dark(),
        dimmed_relit(w0, w),
        changes_accounted(w1, w),
        !w.holds_clear(p.0, p.1, p.2),
        forall|x: int, y: int, z: int|
            (x, y, z) != p && (#[trigger] w0.block_at(x, y, z)) is Some ==> w1.block_at(x, y, z) == w0.block_at(x, y, z),
    ensures
        forall|x: int, y: int, z: int|
            w.light_at(x, y, z) < w0.light_at(x, y, z) && w.holds_clear(x, y, z) ==> #[trigger] w.light_at(x, y, z)
                == gathered(w, (x, y, z)),
{
    assert forall|x: int, y: int, z: int|
        w.light_at(x, y, z) < w0.light_at(x, y, z) && w.holds_clear(x, y, z) implies #[trigger] w.light_at(x, y, z)
            == gathered(w, (x, y, z)) by {
        assert(w0.block_at(x, y, z) is Some);
        assert(w1.block_at(x, y, z) == w0.block_at(x, y, z));
        assert(w.light_at(x, y, z) != w1.light_at(x, y, z));
        assert forall|d: int| 0 <= d < 6 implies #[trigger] takes_from(w, (x, y, z), d) by {}
        lemma_settled_at(w, (x, y, z));
    }
}

/// `p` is waiting in the darkening queue.
spec fn rpending(rq: Seq<((i32, i32, i32), u8)>, p: Pos) -> bool {
    exists|j: int| 0 <= j < rq.len() && (#[trigger] rq[j]).0.0 as int == p.0 && rq[j].0.1 as int == p.1
        && rq[j].0.2 as int == p.2
}

/// The neighbour of `p` in direction `d` is dark or waits to be relit.
spec fn handled_dir(w: World, lq: Seq<(i32, i32, i32)>, p: Pos, d: int) -> bool {
    let n = step(p, d);
    w.light_at(n.0, n.1, n.2) == 0 || wqueued(lq, n)
}

/// Every neighbour of `p` is dark or waits to be relit.
spec fn nb_handled(w: World, lq: Seq<(i32, i32, i32)>, p: Pos) -> bool {
    forall|d: int| 0 <= d < 6 ==> #[trigger] handled_dir(w, lq, p, d)
}

/// What darkening keeps true: a position whose light went out is being
/// worked on, still waits, or has had all its neighbours seen to.
spec fn removal_inv(
    w0: World,
    w: World,
    rq: Seq<((i32, i32, i32), u8)>,
    lq: Seq<(i32, i32, i32)>,
    cur: Pos,
) -> bool {
    forall|x: int, y: int, z: int|
        #[trigger] w.light_at(x, y, z) != w0.light_at(x, y, z) ==> (x, y, z) == cur || rpending(rq, (x, y, z))
            || nb_handled(w, lq, (x, y, z))
}

proof fn lemma_handled_darker(w1: World, w: World, lq: Seq<(i32, i32, i32)>, p: Pos, e: int)
    requires
        handled_dir(w1, lq, p, e),
        forall|x: int, y: int, z: int| #[trigger] w1.light_at(x, y, z) == 0 ==> w.light_at(x, y, z) == 0,
    ensures
        handled_dir(w, lq, p, e),
{
    let n = step(p, e);
    if w1.light_at(n.0, n.1, n.2) == 0 {
        assert(w.light_at(n.0, n.1, n.2) == 0);
    }
}

proof fn lemma_handled_longer(w: World, lq: Seq<(i32, i32, i32)>, lq2: Seq<(i32, i32, i32)>, p: Pos, e: int)
    requires
        handled_dir(w, lq, p, e),
        lq.len() <= lq2.len(),
        forall|j: int| 0 <= j < lq.len() ==> #[trigger] lq2[j] == lq[j],
    ensures
        handled_dir(w, lq2, p, e),
{
    let n = step(p, e);
    if wqueued(lq, n) {
        let j = choose|j: int| 0 <= j < lq.len() && (#[trigger] lq[j]).0 as int == n.0 && lq[j].1 as int == n.1
            && lq[j].2 as int == n.2;
        assert(lq2[j] == lq[j]);
    }
}

/// Darkening the neighbour of `cur` in direction `d` and queueing it.
proof fn lemma_removal_darken(
    w0: World,
    w1: World,
    w: World,
    rq: Seq<((i32, i32, i32), u8)>,
    rq2: Seq<((i32, i32, i32), u8)>,
    lq: Seq<(i32, i32, i32)>,
    cur: Pos,
    d: int,
)
    requires
        removal_inv(w0, w1, rq, lq, cur),
        forall|e: int| 0 <= e < d ==> #[trigger] handled_dir(w1, lq, cur, e),
        0 <= d < 6,
        light_set(w1, w, step(cur, d), 0),
        rq2.len() == rq.len() + 1,
        forall|j: int| 0 <= j < rq.len() ==> #[trigger] rq2[j] == rq[j],
        rq2[rq.len() as int].0.0 as int == step(cur, d).0,
        rq2[rq.len() as int].0.1 as int == step(cur, d).1,
        rq2[rq.len() as int].0.2 as int == step(cur, d).2,
    ensures
        removal_inv(w0, w, rq2, lq, cur),
        forall|e: int| 0 <= e < d + 1 ==> #[trigger] handled_dir(w, lq, cur, e),
{
    let np = step(cur, d);
    assert forall|x: int, y: int, z: int| #[trigger] w1.light_at(x, y, z) == 0 implies w.light_at(x, y, z) == 0 by {
        assert(w.block_at(x, y, z) == w.block_at(x, y, z));
    }
    assert forall|e: int| 0 <= e < d + 1 implies #[trigger] handled_dir(w, lq, cur, e) by {
        if e < d {
            lemma_handled_darker(w1, w, lq, cur, e);
        } else {
            assert(w.block_at(np.0, np.1, np.2) == w.block_at(np.0, np.1, np.2));
        }
    }
    assert forall|x: int, y: int, z: int| #[trigger] w.light_at(x, y, z) != w0.light_at(x, y, z) implies (x, y, z)
        == cur || rpending(rq2, (x, y, z)) || nb_handled(w, lq, (x, y, z)) by {
        if (x, y, z) == np {
            assert(rq2[rq.len() as int] == rq2[rq.len() as int]);
        } else {
            assert(w.block_at(x, y, z) == w1.block_at(x, y, z));
            assert(w1.light_at(x, y, z) != w0.light_at(x, y, z));
            if rpending(rq, (x, y, z)) {
                let j = choose|j: int| 0 <= j < rq.len() && (#[trigger] rq[j]).0.0 as int == x && rq[j].0.1 as int == y
                    && rq[j].0.2 as int == z;
                assert(rq2[j] == rq[j]);
            } else if (x, y, z) != cur {
                assert(nb_handled(w1, lq, (x, y, z)));
                assert forall|e: int| 0 <= e < 6 implies #[trigger] handled_dir(w, lq, (x, y, z), e) by {
                    lemma_handled_darker(w1, w, lq, (x, y, z), e);
                }
            }
        }
    }
}

/// Queueing the neighbour of `cur` in direction `d` for relighting.
proof fn lemma_removal_relight(
    w0: World,
    w: World,
    rq: Seq<((i32, i32, i32), u8)>,
    lq: Seq<(i32, i32, i32)>,
    lq2: Seq<(i32, i32, i32)>,
    cur: Pos,
    d: int,
)
    requires
        removal_inv(w0, w, rq, lq, cur),
        forall|e: int| 0 <= e < d ==> #[trigger] handled_dir(w, lq, cur, e),
        0 <= d < 6,
        lq2.len() == lq.len() + 1,
        forall|j: int| 0 <= j < lq.len() ==> #[trigger] lq2[j] == lq[j],
        lq2[lq.len() as int].0 as int == step(cur, d).0,
        lq2[lq.len() as int].1 as int == step(cur, d).1,
        lq2[lq.len() as int].2 as int == step(cur, d).2,
    ensures
        removal_inv(w0, w, rq, lq2, cur),
        forall|e: int| 0 <= e < d + 1 ==> #[trigger] handled_dir(w, lq2, cur, e),
{
    assert forall|e: int| 0 <= e < d + 1 implies #[trigger] handled_dir(w, lq2, cur, e) by {
        if e < d {
            lemma_handled_longer(w, lq, lq2, cur, e);
        } else {
            assert(lq2[lq.len() as int] == lq2[lq.len() as int]);
        }
    }
    assert forall|x: int, y: int, z: int| #[trigger] w.light_at(x, y, z) != w0.light_at(x, y, z) implies (x, y, z)
        == cur || rpending(rq, (x, y, z)) || nb_handled(w, lq2, (x, y, z)) by {
        if (x, y, z) != cur && !rpending(rq, (x, y, z)) {
            assert(nb_handled(w, lq, (x, y, z)));
            assert forall|e: int| 0 <= e < 6 implies #[trigger] handled_dir(w, lq2, (x, y, z), e) by {
                lemma_handled_longer(w, lq, lq2, (x, y, z), e);
            }
        }
    }
}

/// Taking the first position off the darkening queue to work on it.
proof fn lemma_removal_pop(
    w0: World,
    w: World,
    rq: Seq<((i32, i32, i32), u8)>,
    lq: Seq<(i32, i32, i32)>,
)
    requires
        removal_inv(w0, w, rq, lq, no_pos()),
        rq.len() > 0,
        w.light_at(0, -1, 0) == w0.light_at(0, -1, 0),
    ensures
        removal_inv(w0, w, rq.drop_first(), lq, (rq[0].0.0 as int, rq[0].0.1 as int, rq[0].0.2 as int)),
{
    let cur = (rq[0].0.0 as int, rq[0].0.1 as int, rq[0].0.2 as int);
    assert forall|x: int, y: int, z: int| #[trigger] w.light_at(x, y, z) != w0.light_at(x, y, z) implies (x, y, z)
        == cur || rpending(rq.drop_first(), (x, y, z)) || nb_handled(w, lq, (x, y, z)) by {
        if rpending(rq, (x, y, z)) && (x, y, z) != cur {
            let j = choose|j: int| 0 <= j < rq.len() && (#[trigger] rq[j]).0.0 as int == x && rq[j].0.1 as int == y
                && rq[j].0.2 as int == z;
            assert(j != 0);
            assert(rq.drop_first()[j - 1] == rq[j]);
        }
    }
}

/// Done with `cur`: all its neighbours have been seen to.
proof fn lemma_removal_release(
    w0: World,
    w: World,
    rq: Seq<((i32, i32, i32), u8)>,
    lq: Seq<(i32, i32, i32)>,
    cur: Pos,
)
    requires
        removal_inv(w0, w, rq, lq, cur),
        forall|e: int| 0 <= e < 6 ==> #[trigger] handled_dir(w, lq, cur, e),
    ensures
        removal_inv(w0, w, rq, lq, no_pos()),
{
    assert forall|x: int, y: int, z: int| #[trigger] w.light_at(x, y, z) != w0.light_at(x, y, z) implies (x, y, z)
        == no_pos() || rpending(rq, (x, y, z)) || nb_handled(w, lq, (x, y, z)) by {
        if (x, y, z) == cur {
            assert(nb_handled(w, lq, cur));
        }
    }
}

/// The chunk holding `p` is loaded.
pub open spec fn loaded(w: World, p: Pos) -> bool {
    w.chunk_at(chunk_of(p.0), chunk_of(p.2)) is Some
}

/// The block at `p` is bedrock, or, when its chunk is not loaded yet, will
/// be bedrock once the chunk is generated (the bottom layer).
pub open spec fn bedrock_there(w: World, p: Pos) -> bool {
    if loaded(w, p) {
        w.block_at(p.0, p.1, p.2) matches Some(b) && b.block_type == BlockType::Bedrock
    } else {
        p.1 == 0
    }
}

/// Apart from position `p`, every block that `w` holds is still there in
/// `w2` with the same type, tree and block light.
pub open spec fn others_kept(w: World, w2: World, p: Pos) -> bool {
    forall|x: int, y: int, z: int|
        (x, y, z) != p && (#[trigger] w.block_at(x, y, z)) is Some ==> {
            &&& w2.block_at(x, y, z) is Some
            &&& w2.block_at(x, y, z)->0.block_type == w.block_at(x, y, z)->0.block_type
            &&& w2.block_at(x, y, z)->0.tree_id == w.block_at(x, y, z)->0.tree_id
            &&& w2.block_at(x, y, z)->0.block_light == w.block_at(x, y, z)->0.block_light
        }
}

/// What `World::set_block(pos, t)` does, `w` before and `w2` after, `r` its
/// result.  Outside the world's height it fails and changes nothing.
/// Otherwise it fails exactly when the block's transparency would change
/// over bedrock; then every loaded block stays as it was (and when the
/// chunk was loaded already, the world is unchanged).  On success the block
/// becomes a fresh block of type `t` in the chunk whose coordinates are
/// returned; it is dark if it stops light or if its transparency did not
/// change, and when its transparency did not change every other block stays
/// exactly as it was.  A dug block takes the most light its neighbours
/// offer while no other light falls and none rises above the dug block's,
/// and the dug block and every block whose light rose pass their light on
/// to all their neighbours.  A block placed in full sky light shades the
/// full-light column below it; after placing a block that stops light, only
/// blocks lit through it (reached from it along steps of falling light, or
/// in the full-light column straight below it) lose light, every block lit
/// through it ends dark or lit by a neighbour, every block that
/// lost light and lets light through holds at least what each lit
/// neighbour passes on to it, and, where no opaque block held light, exactly
/// the most light its neighbours offer.  Whatever the result, every other
/// block keeps its type, tree and block light, every light that changed is
/// out or lit by a neighbour, and only the block's own chunk may have been
/// loaded.
pub open spec fn block_set(w: World, w2: World, pos: (i32, i32, i32), t: BlockType, r: Result<
    (i32, i32),
    &str,
>) -> bool {
    let p = (pos.0 as int, pos.1 as int, pos.2 as int);
    let changes = w.clear_at(p.0, p.1, p.2) != type_is_transparent(t);
    if !(0 <= p.1 < CHUNK_HEIGHT) {
        r matches Err(e) && e@ == "Y coordinate out of world bounds"@ && w2 == w
    } else {
        &&& r is Err <==> changes && bedrock_there(w, p)
        &&& r matches Err(e) ==> e@ == "Cannot replace Bedrock"@
        &&& r is Err ==> (w2.block_at(p.0, p.1, p.2) matches Some(b) && b.block_type == BlockType::Bedrock)
        &&& r matches Ok(c) ==> c == (chunk_of(p.0) as i32, chunk_of(p.2) as i32)
        &&& r is Ok ==> (w2.block_at(p.0, p.1, p.2) matches Some(b) && b.block_type == t && b.tree_id
            is None && b.block_light == 0)
        &&& r is Ok && !type_is_transparent(t) ==> w2.light_at(p.0, p.1, p.2) == 0
        &&& r is Ok && changes && !type_is_transparent(t) && w.light_at(p.0, p.1, p.2) == MAX_LIGHT ==> w2.light_at(
            p.0,
            p.1 - 1,
            p.2,
        ) < MAX_LIGHT
        &&& r is Ok && changes && !type_is_transparent(t) ==> dimmed_relit(w, w2)
        &&& r is Ok && changes && !type_is_transparent(t) ==> forall|x: int, y: int, z: int|
            #[trigger] lit_through(w, p, w.light_at(p.0, p.1, p.2), (x, y, z)) ==> w2.light_at(x, y, z) == 0
                || w2.fed((x, y, z))
        &&& r is Ok && changes && !type_is_transparent(t) && w.light_at(p.0, p.1, p.2) == MAX_LIGHT ==> forall|k: int|
            k >= 1 && #[trigger] col_full(w, p, k) ==> w2.light_at(p.0, p.1 - k, p.2) < MAX_LIGHT
        &&& r is Ok && changes && !type_is_transparent(t) ==> forall|x: int, y: int, z: int|
            #[trigger] w2.light_at(x, y, z) < w.light_at(x, y, z) ==> lit_through(w, p, w.light_at(p.0, p.1, p.2), (x, y, z))
        &&& r is Ok && changes && !type_is_transparent(t) && w.opaque_dark() ==> forall|x: int, y: int, z: int|
            w2.light_at(x, y, z) < w.light_at(x, y, z) && w2.holds_clear(x, y, z) ==> #[trigger] w2.light_at(x, y, z)
                == gathered(w2, (x, y, z))
        &&& r is Ok && !changes ==> w2.light_at(p.0, p.1, p.2) == 0
        &&& r is Ok && !changes ==> forall|x: int, y: int, z: int|
            (x, y, z) != p && w.block_at(x, y, z) is Some ==> #[trigger] w2.block_at(x, y, z) == w.block_at(x, y, z)
        &&& r is Err ==> forall|x: int, y: int, z: int|
            w.block_at(x, y, z) is Some ==> #[trigger] w2.block_at(x, y, z) == w.block_at(x, y, z)
        &&& r is Err && loaded(w, p) ==> forall|x: int, y: int, z: int|
            #[trigger] w2.block_at(x, y, z) == w.block_at(x, y, z)
        &&& r is Ok && changes && type_is_transparent(t) && loaded(w, p) ==> w2.light_at(p.0, p.1, p.2)
            == gathered(w, p)
        &&& r is Ok && changes && type_is_transparent(t) && loaded(w, p) ==> forall|x: int, y: int, z: int|
            (x, y, z) != p ==> #[trigger] w2.light_at(x, y, z) >= w.light_at(x, y, z)
        &&& r is Ok && changes && type_is_transparent(t) && loaded(w, p) ==> w2.spreads(p)
        &&& r is Ok && changes && type_is_transparent(t) && loaded(w, p) ==> forall|x: int, y: int, z: int|
            #[trigger] w2.light_at(x, y, z) > w.light_at(x, y, z) ==> w2.light_at(x, y, z) <= gathered(w, p)
        &&& r is Ok && changes && type_is_transparent(t) && loaded(w, p) ==> forall|x: int, y: int, z: int|
            #[trigger] w2.light_at(x, y, z) > w.light_at(x, y, z) ==> w2.spreads((x, y, z))
        &&& others_kept(w, w2, p)
        &&& forall|x: int, y: int, z: int|
            w.block_at(x, y, z) is Some && #[trigger] w2.light_at(x, y, z) != w.light_at(x, y, z) ==> w2.light_at(x, y, z)
                == 0 || w2.fed((x, y, z))
        &&& forall|cx: int, cz: int|
            #[trigger] w2.chunk_at(cx, cz) is Some <==> (w.chunk_at(cx, cz) is Some || (cx, cz) == (
                chunk_of(p.0),
                chunk_of(p.2),
            ))
    }
}

pub proof fn lemma_gathered_same(w: World, w2: World, p: Pos, k: int)
    requires
        forall|x: int, y: int, z: int| (x, y, z) != p ==> #[trigger] w2.block_at(x, y, z) == w.block_at(x, y, z),
        0 <= k <= 6,
    ensures
        gathered_upto(w2, p, k) == gathered_upto(w, p, k),
    decreases k,
{
    if k > 0 {
        lemma_gathered_same(w, w2, p, k - 1);
        let n = step(p, k - 1);
        assert(n != p);
        assert(w2.block_at(n.0, n.1, n.2) == w.block_at(n.0, n.1, n.2));
    }
}


/// `w1` is `w0` with the chunk holding `p` (loaded, or generated as `c`)
/// replaced by `c2`.
pub open spec fn chunk_swapped(w0: World, w1: World, p: Pos, c: Chunk, c2: Chunk) -> bool {
    let cx = chunk_of(p.0);
    let cz = chunk_of(p.2);
    &&& is_i32(p.0) && is_i32(p.2) && 0 <= p.1 < CHUNK_HEIGHT
    &&& w0.wf()
    &&& w0.lights_bounded()
    &&& (w0.chunk_at(cx, cz) matches Some(c0) ==> c == c0)
    &&& (w0.chunk_at(cx, cz) is None ==> generated(c, cx, cz))
    &&& c.wf()
    &&& c2.wf()
    &&& c.coords() == (cx as i32, cz as i32)
    &&& c2.coords() == c.coords()
    &&& w1.chunk_at(cx, cz) == Some(c2)
    &&& forall|a: int, b: int| (a, b) != (cx, cz) ==> #[trigger] w1.chunk_at(a, b) == w0.chunk_at(a, b)
    &&& w1.chunk_map().dom() == w0.chunk_map().dom().insert(key_of(cx, cz))
    &&& forall|k: u64| #[trigger] w1.chunk_map().contains_key(k) && k != key_of(cx, cz) ==> w1.chunk_map()[k] == w0.chunk_map()[k]
}

proof fn lemma_swap_blocks(w0: World, w1: World, p: Pos, c: Chunk, c2: Chunk)
    requires
        chunk_swapped(w0, w1, p, c, c2),
    ensures
        w1.wf(),
        forall|x: int, y: int, z: int|
            #[trigger] w1.block_at(x, y, z) == if chunk_of(x) == chunk_of(p.0) && chunk_of(z) == chunk_of(p.2)
                && is_i32(x) && is_i32(z) && 0 <= y < CHUNK_HEIGHT {
                Some(c2.at(local_of(x), y, local_of(z)))
            } else {
                w0.block_at(x, y, z)
            },
        forall|cx: int, cz: int|
            #[trigger] w1.chunk_at(cx, cz) is Some <==> (w0.chunk_at(cx, cz) is Some || (cx, cz) == (
                chunk_of(p.0),
                chunk_of(p.2),
            )),
        bedrock_there(w0, p) <==> c.at(local_of(p.0), p.1, local_of(p.2)).block_type == BlockType::Bedrock,
        loaded(w0, p) ==> w0.block_at(p.0, p.1, p.2) == Some(c.at(local_of(p.0), p.1, local_of(p.2))),
{
    let cx = chunk_of(p.0);
    let cz = chunk_of(p.2);
    assert forall|k: u64| #[trigger] w1.chunk_map().contains_key(k) implies w1.chunk_map()[k].wf() by {
        if k != key_of(cx, cz) {
            assert(w0.chunk_map().contains_key(k));
        } else {
            assert(w1.chunk_at(cx, cz) == Some(c2));
        }
    }
    assert forall|a: int, b: int| #[trigger] w1.chunk_at(a, b) is Some <==> (w0.chunk_at(a, b) is Some || (a, b) == (cx, cz)) by {
        if (a, b) != (cx, cz) {
            assert(w1.chunk_at(a, b) == w0.chunk_at(a, b));
        }
    }
    assert(is_i32(cx) && is_i32(cz));
    if !loaded(w0, p) {
        let lx = local_of(p.0);
        let lz = local_of(p.2);
        assert(in_chunk(lx, p.1, lz));
        assert(generated(c, cx, cz));
        let b = c.at(lx, p.1, lz);
        assert(p.1 <= SURFACE_LEVEL ==> b.block_type == terrain_type(p.1));
    }
}

proof fn lemma_block_replaced(w0: World, w1: World, p: Pos, t: BlockType, c: Chunk, c2: Chunk)
    requires
        chunk_swapped(w0, w1, p, c, c2),
        c2@ == c@.update(block_index(local_of(p.0), p.1, local_of(p.2)), fresh_block(t)),
    ensures
        w1.wf(),
        w1.lights_bounded(),
        w1.block_at(p.0, p.1, p.2) == Some(fresh_block(t)),
        forall|x: int, y: int, z: int|
            (x, y, z) != p && (#[trigger] w0.block_at(x, y, z)) is Some ==> w1.block_at(x, y, z) == w0.block_at(x, y, z),
        others_kept(w0, w1, p),
        forall|cx: int, cz: int|
            #[trigger] w1.chunk_at(cx, cz) is Some <==> (w0.chunk_at(cx, cz) is Some || (cx, cz) == (
                chunk_of(p.0),
                chunk_of(p.2),
            )),
        bedrock_there(w0, p) <==> c.at(local_of(p.0), p.1, local_of(p.2)).block_type == BlockType::Bedrock,
        loaded(w0, p) ==> forall|x: int, y: int, z: int| (x, y, z) != p ==> #[trigger] w1.block_at(x, y, z) == w0.block_at(x, y, z),
        w0.opaque_dark() ==> w1.opaque_dark(),
{
    lemma_swap_blocks(w0, w1, p, c, c2);
    let lp = (local_of(p.0), p.1, local_of(p.2));
    let ip = block_index(lp.0, lp.1, lp.2);
    crate::chunk::lemma_index_bounds(lp.0, lp.1, lp.2);
    assert forall|x: int, y: int, z: int| (x, y, z) != p && chunk_of(x) == chunk_of(p.0) && chunk_of(z) == chunk_of(p.2)
        && is_i32(x) && is_i32(z) && 0 <= y < CHUNK_HEIGHT implies #[trigger] c2.at(local_of(x), y, local_of(z)) == c.at(local_of(x), y, local_of(z)) by {
        crate::chunk::lemma_index_bounds(local_of(x), y, local_of(z));
        if block_index(local_of(x), y, local_of(z)) == ip {
            crate::chunk::lemma_index_injective(local_of(x), y, local_of(z), lp.0, lp.1, lp.2);
            lemma_world_pos_injective(x, p.0);
            lemma_world_pos_injective(z, p.2);
        }
    }
    assert forall|x: int, y: int, z: int|
        (x, y, z) != p && (#[trigger] w0.block_at(x, y, z)) is Some implies w1.block_at(x, y, z) == w0.block_at(x, y, z) by {
        if chunk_of(x) == chunk_of(p.0) && chunk_of(z) == chunk_of(p.2) && is_i32(x) && is_i32(z) && 0 <= y < CHUNK_HEIGHT {
            assert(c2.at(local_of(x), y, local_of(z)) == c.at(local_of(x), y, local_of(z)));
        }
    }
    if loaded(w0, p) {
        assert forall|x: int, y: int, z: int| (x, y, z) != p implies #[trigger] w1.block_at(x, y, z) == w0.block_at(x, y, z) by {
            if chunk_of(x) == chunk_of(p.0) && chunk_of(z) == chunk_of(p.2) && is_i32(x) && is_i32(z) && 0 <= y < CHUNK_HEIGHT {
                assert(c2.at(local_of(x), y, local_of(z)) == c.at(local_of(x), y, local_of(z)));
            }
        }
    }
    assert forall|x: int, y: int, z: int| #[trigger] w1.block_at(x, y, z) is Some implies w1.block_at(x, y, z)->0.sky_light <= MAX_LIGHT by {
        if chunk_of(x) == chunk_of(p.0) && chunk_of(z) == chunk_of(p.2) && is_i32(x) && is_i32(z) && 0 <= y < CHUNK_HEIGHT {
            if (x, y, z) == p {
            } else {
                assert(c2.at(local_of(x), y, local_of(z)) == c.at(local_of(x), y, local_of(z)));
                if loaded(w0, p) {
                    assert(w0.block_at(x, y, z) == Some(c.at(local_of(x), y, local_of(z))));
                } else {
                    assert(in_chunk(local_of(x), y, local_of(z)));
                    assert(crate::chunk::settled_at(c@, local_of(x), y, local_of(z)));
                }
            }
        } else {
            assert(w0.block_at(x, y, z) matches Some(b) ==> b.sky_light <= MAX_LIGHT);
        }
    }
    if w0.opaque_dark() {
        assert forall|x: int, y: int, z: int| #[trigger] w1.block_at(x, y, z) is Some && !type_is_transparent(
            w1.block_at(x, y, z)->0.block_type) implies w1.block_at(x, y, z)->0.sky_light == 0 by {
            if chunk_of(x) == chunk_of(p.0) && chunk_of(z) == chunk_of(p.2) && is_i32(x) && is_i32(z) && 0 <= y < CHUNK_HEIGHT {
                if (x, y, z) != p {
                    assert(c2.at(local_of(x), y, local_of(z)) == c.at(local_of(x), y, local_of(z)));
                    if loaded(w0, p) {
                        assert(w0.block_at(x, y, z) == Some(c.at(local_of(x), y, local_of(z))));
                    } else {
                        assert(in_chunk(local_of(x), y, local_of(z)));
                        assert(crate::chunk::settled_at(c@, local_of(x), y, local_of(z)));
                    }
                }
            } else {
                assert(w1.block_at(x, y, z) == w0.block_at(x, y, z));
            }
        }
    }
}


proof fn lemma_chunk_loaded_only(w0: World, w1: World, p: Pos, c: Chunk)
    requires
        chunk_swapped(w0, w1, p, c, c),
    ensures
        w1.wf(),
        w1.lights_bounded(),
        others_kept(w0, w1, p),
        w0.opaque_dark() ==> w1.opaque_dark(),
        forall|x: int, y: int, z: int| (#[trigger] w0.block_at(x, y, z)) is Some ==> w1.block_at(x, y, z) == w0.block_at(x, y, z),
{
    lemma_swap_blocks(w0, w1, p, c, c);
    assert forall|x: int, y: int, z: int|
        (x, y, z) != p && (#[trigger] w0.block_at(x, y, z)) is Some implies w1.block_at(x, y, z) == w0.block_at(x, y, z) by {}
    assert forall|x: int, y: int, z: int| #[trigger] w1.block_at(x, y, z) is Some implies w1.block_at(x, y, z)->0.sky_light <= MAX_LIGHT by {
        if chunk_of(x) == chunk_of(p.0) && chunk_of(z) == chunk_of(p.2) && is_i32(x) && is_i32(z) && 0 <= y < CHUNK_HEIGHT {
            if loaded(w0, p) {
                assert(w0.block_at(x, y, z) == Some(c.at(local_of(x), y, local_of(z))));
            } else {
                assert(in_chunk(local_of(x), y, local_of(z)));
                assert(crate::chunk::settled_at(c@, local_of(x), y, local_of(z)));
            }
        } else {
            assert(w0.block_at(x, y, z) matches Some(b) ==> b.sky_light <= MAX_LIGHT);
        }
    }
    if w0.opaque_dark() {
        assert forall|x: int, y: int, z: int| #[trigger] w1.block_at(x, y, z) is Some && !type_is_transparent(
            w1.block_at(x, y, z)->0.block_type) implies w1.block_at(x, y, z)->0.sky_light == 0 by {
            if chunk_of(x) == chunk_of(p.0) && chunk_of(z) == chunk_of(p.2) && is_i32(x) && is_i32(z) && 0 <= y < CHUNK_HEIGHT {
                if loaded(w0, p) {
                    assert(w0.block_at(x, y, z) == Some(c.at(local_of(x), y, local_of(z))));
                } else {
                    assert(in_chunk(local_of(x), y, local_of(z)));
                    assert(crate::chunk::settled_at(c@, local_of(x), y, local_of(z)));
                }
            } else {
                assert(w1.block_at(x, y, z) == w0.block_at(x, y, z));
            }
        }
    }
}

/// A generated chunk: flat terrain up to the surface, above it air, trunk
/// logs or leaves, and settled sky light.
pub open spec fn generated(c: Chunk, cx: int, cz: int) -> bool {
    &&& c.wf()
    &&& c.coords() == (cx as i32, cz as i32)
    &&& sky_light_settled(c@)
    &&& trunks_rooted(c@)
    &&& forall|x: int, y: int, z: int|
        in_chunk(x, y, z) ==> {
            let b = #[trigger] c.at(x, y, z);
            &&& y <= SURFACE_LEVEL ==> b.block_type == terrain_type(y) && b.tree_id is None
                && b.block_light == 0
            &&& y > SURFACE_LEVEL ==> (b.block_type == BlockType::Air && b.tree_id is None) || (
            b.block_type == BlockType::OakLog && b.tree_id is None) || (b.block_type
                == BlockType::OakLeaves && b.tree_id is Some)
            &&& b.block_light == 0
        }
}

/// The loaded chunks of an unbounded world, found by chunk coordinates.
pub struct World {
    chunks: HashMap<u64, Chunk>,
}

impl World {
    pub closed spec fn chunk_map(&self) -> Map<u64, Chunk> {
        self.chunks@
    }

    /// Every loaded chunk holds one block per local position and is stored
    /// under the key of its own coordinates.
    pub open spec fn wf(&self) -> bool {
        forall|k: u64|
            #[trigger] self.chunk_map().contains_key(k) ==> self.chunk_map()[k].wf() && key_of(
                self.chunk_map()[k].coords().0 as int,
                self.chunk_map()[k].coords().1 as int,
            ) == k
    }

    /// The chunk at chunk coordinates (cx, cz), if loaded.
    pub open spec fn chunk_at(&self, cx: int, cz: int) -> Option<Chunk> {
        if is_i32(cx) && is_i32(cz) && self.chunk_map().contains_key(key_of(cx, cz)) {
            Some(self.chunk_map()[key_of(cx, cz)])
        } else {
            None
        }
    }

    /// The block at world position (x, y, z), if its chunk is loaded and y
    /// lies inside the world's height.
    pub open spec fn block_at(&self, x: int, y: int, z: int) -> Option<Block> {
        if is_i32(x) && 0 <= y < CHUNK_HEIGHT && is_i32(z) {
            match self.chunk_at(chunk_of(x), chunk_of(z)) {
                Some(c) => Some(c.at(local_of(x), y, local_of(z))),
                None => None,
            }
        } else {
            None
        }
    }

    /// An empty world.
    pub fn new() -> (w: Self)
        ensures
            w.wf(),
            forall|cx: int, cz: int| #[trigger] w.chunk_at(cx, cz) is None,
    {
        World { chunks: HashMap::new() }
    }

    fn key(chunk_x: i32, chunk_z: i32) -> (k: u64)
        ensures
            k == key_of(chunk_x as int, chunk_z as int),
    {
        assert(0 <= (chunk_x + 2147483648) * 4294967296 + (chunk_z + 2147483648) <= u64::MAX) by (nonlinear_arith)
            requires
                is_i32(chunk_x as int),
                is_i32(chunk_z as int),
        ;
        let hi = (chunk_x as i64 + 2147483648) as u64;
        let lo = (chunk_z as i64 + 2147483648) as u64;
        assert(hi * 4294967296 + lo <= u64::MAX) by (nonlinear_arith)
            requires
                hi <= 4294967295,
                lo <= 4294967295,
        ;
        hi * 4294967296 + lo
    }


    /// A new chunk at (chunk_x, chunk_z) with generated terrain and settled
    /// sky light.
    fn generate_chunk(chunk_x: i32, chunk_z: i32) -> (c: Chunk)
        ensures
            generated(c, chunk_x as int, chunk_z as int),
    {
        let mut new_chunk = Chunk::new(chunk_x, chunk_z);
        let ghost c0 = new_chunk@;
        let ghost ch0 = new_chunk;
        proof {
            assert forall|a: int, b: int, c: int| #[trigger] log_at(c0, a, b, c) implies b >= 1 && carries_log(c0, a, b - 1, c) by {
                crate::chunk::lemma_index_bounds(a, b, c);
            }
        }
        new_chunk.generate_terrain();
        let ghost c1 = new_chunk@;
        let ghost ch1 = new_chunk;
        new_chunk.calculate_sky_light();
        proof {
            crate::chunk::lemma_rooted_same_types(c1, new_chunk@);
            assert forall|x: int, y: int, z: int| in_chunk(x, y, z) implies {
                let b = #[trigger] new_chunk.at(x, y, z);
                &&& y <= SURFACE_LEVEL ==> b.block_type == terrain_type(y) && b.tree_id is None
                    && b.block_light == 0
                &&& y > SURFACE_LEVEL ==> (b.block_type == BlockType::Air && b.tree_id is None) || (
                b.block_type == BlockType::OakLog && b.tree_id is None) || (b.block_type
                    == BlockType::OakLeaves && b.tree_id is Some)
                &&& b.block_light == 0
            } by {
                let i = block_index(x, y, z);
                crate::chunk::lemma_index_bounds(x, y, z);
                assert(c0[i] == fresh_block(BlockType::Air));
                assert(c1[i].block_type == new_chunk@[i].block_type);
                if y <= SURFACE_LEVEL {
                    assert(ch1.at(x, y, z) == fresh_block(terrain_type(y)));
                } else {
                    assert(crate::chunk::grown_from(ch0.at(x, y, z), ch1.at(x, y, z)));
                }
            }
        }
        new_chunk
    }

    /// The chunk at (chunk_x, chunk_z); when it is not loaded yet, a new
    /// one is generated (terrain, trees, sky light) and loaded first.
    pub fn get_or_create_chunk(&mut self, chunk_x: i32, chunk_z: i32) -> (r: &mut Chunk)
        requires
            old(self).wf(),
        ensures
            old(self).chunk_at(chunk_x as int, chunk_z as int) matches Some(c) ==> *r == c,
            old(self).chunk_at(chunk_x as int, chunk_z as int) is None ==> generated(
                *r,
                chunk_x as int,
                chunk_z as int,
            ),
            final(self).chunk_at(chunk_x as int, chunk_z as int) == Some(*final(r)),
            r.coords() == (chunk_x, chunk_z),
            forall|cx: int, cz: int|
                (cx, cz) != (chunk_x as int, chunk_z as int) ==> #[trigger] final(self).chunk_at(cx, cz)
                    == old(self).chunk_at(cx, cz),
            final(r).wf() && final(r).coords() == (chunk_x, chunk_z) ==> final(self).wf(),
            final(self).chunk_map().dom() == old(self).chunk_map().dom().insert(
                key_of(chunk_x as int, chunk_z as int),
            ),
            forall|k: u64|
                #[trigger] final(self).chunk_map().contains_key(k) && k != key_of(chunk_x as int, chunk_z as int)
                    ==> final(self).chunk_map()[k] == old(self).chunk_map()[k],
    {
        let k = Self::key(chunk_x, chunk_z);
        match self.chunks.entry(k) {
            Entry::Occupied(e) => e.into_mut(),
            Entry::Vacant(e) => e.insert(Self::generate_chunk(chunk_x, chunk_z)),
        }
    }



    /// Every loaded block's sky light is at most the maximum level.
    pub open spec fn lights_bounded(&self) -> bool {
        forall|x: int, y: int, z: int|
            #[trigger] self.block_at(x, y, z) matches Some(b) ==> b.sky_light <= MAX_LIGHT
    }

    /// No loaded block that stops light holds any sky light.
    pub open spec fn opaque_dark(&self) -> bool {
        forall|x: int, y: int, z: int|
            #[trigger] self.block_at(x, y, z) matches Some(b) ==> (!type_is_transparent(b.block_type)
                ==> b.sky_light == 0)
    }

    /// The light at `p` has reached its neighbour in direction `d`, if that
    /// neighbour is loaded and lets light through.
    pub open spec fn reaches_dir(&self, l: int, p: Pos, d: int) -> bool {
        let n = step(p, d);
        match self.block_at(n.0, n.1, n.2) {
            Some(b) => type_is_transparent(b.block_type) ==> b.sky_light >= passed_on(l, d),
            None => true,
        }
    }

    /// The light at `p` has reached all six neighbours.
    pub open spec fn spreads(&self, p: Pos) -> bool {
        forall|d: int| 0 <= d < 6 ==> #[trigger] self.reaches_dir(self.light_at(p.0, p.1, p.2), p, d)
    }

    /// The neighbour of `p` in direction `d` is lit and passes at least the
    /// light of `p` on towards `p`.
    pub open spec fn feeds(&self, p: Pos, d: int) -> bool {
        let n = step(p, d);
        &&& self.light_at(n.0, n.1, n.2) > 0
        &&& passed_on(self.light_at(n.0, n.1, n.2), opposite(d)) >= self.light_at(p.0, p.1, p.2)
    }

    /// A loaded block that lets light through.
    pub open spec fn holds_clear(&self, x: int, y: int, z: int) -> bool {
        self.block_at(x, y, z) matches Some(b) && type_is_transparent(b.block_type)
    }

    /// Some neighbour accounts for the light at `p`.
    pub open spec fn fed(&self, p: Pos) -> bool {
        exists|d: int| 0 <= d < 6 && #[trigger] self.feeds(p, d)
    }

    /// How far the loaded chunks are from being fully lit.
    pub open spec fn world_dark(&self) -> nat {
        world_sum(self.chunk_map(), self.chunk_map().dom(), true)
    }

    /// The total sky light of the loaded chunks.
    pub open spec fn world_bright(&self) -> nat {
        world_sum(self.chunk_map(), self.chunk_map().dom(), false)
    }

    /// The sky light at a world position: zero outside the world's height
    /// and in chunks that are not loaded.
    pub open spec fn light_at(&self, x: int, y: int, z: int) -> int {
        match self.block_at(x, y, z) {
            Some(b) => b.sky_light as int,
            None => 0,
        }
    }

    /// Whether light passes a world position: outside the world's height and
    /// in chunks that are not loaded it does.
    pub open spec fn clear_at(&self, x: int, y: int, z: int) -> bool {
        match self.block_at(x, y, z) {
            Some(b) => type_is_transparent(b.block_type),
            None => true,
        }
    }

    /// The chunk coordinates of a world block position and its local
    /// position in that chunk, with the height clamped to the world.
    pub fn world_to_chunk_coords(world_x: i32, world_y: i32, world_z: i32) -> (r: (
        (i32, i32),
        (usize, usize, usize),
    ))
        ensures
            r.0.0 as int == chunk_of(world_x as int),
            r.0.1 as int == chunk_of(world_z as int),
            r.1.0 as int == local_of(world_x as int),
            r.1.1 as int == clamp_height(world_y as int),
            r.1.2 as int == local_of(world_z as int),
            in_chunk(r.1.0 as int, r.1.1 as int, r.1.2 as int),
    {
        let chunk_x = world_x.checked_div_euclid(16).unwrap();
        let chunk_z = world_z.checked_div_euclid(16).unwrap();
        let local_x = world_x.checked_rem_euclid(16).unwrap();
        let local_z = world_z.checked_rem_euclid(16).unwrap();
        let clamped_y: i32 = if world_y < 0 {
            0
        } else if world_y > CHUNK_HEIGHT as i32 - 1 {
            CHUNK_HEIGHT as i32 - 1
        } else {
            world_y
        };
        ((chunk_x, chunk_z), (local_x as usize, clamped_y as usize, local_z as usize))
    }

    /// The block at a world position, the height clamped to the world; `None`
    /// when its chunk is not loaded.
    pub fn get_block_at_world(&self, world_x: i32, world_y: i32, world_z: i32) -> (r: Option<&Block>)
        requires
            self.wf(),
        ensures
            r == match self.block_at(world_x as int, clamp_height(world_y as int), world_z as int) {
                Some(b) => Some(&b),
                None => None::<&Block>,
            },
    {
        let ((chunk_x, chunk_z), (local_x, local_y, local_z)) = World::world_to_chunk_coords(
            world_x,
            world_y,
            world_z,
        );
        if local_y >= CHUNK_HEIGHT {
            return None;
        }
        match self.get_chunk(chunk_x, chunk_z) {
            Some(chunk) => {
                proof {
                    assert(self.chunk_map().contains_key(key_of(chunk_x as int, chunk_z as int)));
                }
                chunk.get_block(local_x, local_y, local_z)
            },
            None => None,
        }
    }

    /// The sky light at a world position: zero outside the world's height
    /// and in chunks that are not loaded.
    pub fn get_light_level(&self, pos: (i32, i32, i32)) -> (r: u8)
        requires
            self.wf(),
        ensures
            r as int == self.light_at(pos.0 as int, pos.1 as int, pos.2 as int),
    {
        if pos.1 < 0 || pos.1 >= CHUNK_HEIGHT as i32 {
            return 0;
        }
        match self.get_block_at_world(pos.0, pos.1, pos.2) {
            Some(b) => b.sky_light,
            None => 0,
        }
    }

    fn is_block_transparent(&self, pos: (i32, i32, i32)) -> (r: bool)
        requires
            self.wf(),
        ensures
            r == self.clear_at(pos.0 as int, pos.1 as int, pos.2 as int),
    {
        if pos.1 < 0 || pos.1 >= CHUNK_HEIGHT as i32 {
            return true;
        }
        match self.get_block_at_world(pos.0, pos.1, pos.2) {
            Some(b) => b.is_transparent(),
            None => true,
        }
    }

    fn set_light_level(&mut self, pos: (i32, i32, i32), level: u8)
        requires
            old(self).wf(),
        ensures
            final(self).wf(),
            final(self).chunk_map().dom() == old(self).chunk_map().dom(),
            match old(self).block_at(pos.0 as int, pos.1 as int, pos.2 as int) {
                Some(b) => {
                    &&& final(self).world_dark() + dark_of(b) == old(self).world_dark() + dark_of(
                        Block { sky_light: level, ..b },
                    )
                    &&& final(self).world_bright() + b.sky_light == old(self).world_bright() + level
                },
                None => final(self).world_dark() == old(self).world_dark()
                    && final(self).world_bright() == old(self).world_bright(),
            },
            forall|x: int, y: int, z: int|
                #[trigger] final(self).block_at(x, y, z) == if (x, y, z) == (pos.0 as int, pos.1 as int, pos.2 as int) {
                    match old(self).block_at(x, y, z) {
                        Some(b) => Some(Block { sky_light: level, ..b }),
                        None => None,
                    }
                } else {
                    old(self).block_at(x, y, z)
                },
    {
        if pos.1 < 0 || pos.1 >= CHUNK_HEIGHT as i32 {
            return;
        }
        let ((chunk_x, chunk_z), (lx, ly, lz)) = World::world_to_chunk_coords(pos.0, pos.1, pos.2);
        let k = Self::key(chunk_x, chunk_z);
        let ghost w0 = *self;
        if let Some(mut c) = self.chunks.remove(&k) {
            proof {
                assert(w0.chunk_map().contains_key(k));
                assert(w0.chunk_map()[k].wf());
            }
            let ghost c0 = c;
            c.set_block_light(lx, ly, lz, level);
            self.chunks.insert(k, c);
            proof {
                let i = block_index(lx as int, ly as int, lz as int);
                crate::chunk::lemma_index_bounds(lx as int, ly as int, lz as int);
                crate::chunk::lemma_darkness_update(c0@, i, Block { sky_light: level, ..c0@[i] });
                crate::chunk::lemma_brightness_update(c0@, i, Block { sky_light: level, ..c0@[i] });
                assert(self.chunk_map() =~= w0.chunk_map().insert(k, c));
                lemma_world_sum_update(w0.chunk_map(), w0.chunk_map().dom(), k, c, true);
                lemma_world_sum_update(w0.chunk_map(), w0.chunk_map().dom(), k, c, false);
                assert(w0.chunk_map().dom().insert(k) =~= w0.chunk_map().dom());
            }
        } else {
            proof {
                assert(self.chunk_map() =~= w0.chunk_map());
            }
        }
        proof {
            assert forall|k2: u64| #[trigger] self.chunk_map().contains_key(k2) implies self.chunk_map()[k2].wf() by {
                if k2 != k {
                    assert(w0.chunk_map().contains_key(k2));
                }
            }
        }
    }


    /// The neighbour of `pos` in direction `d`; `None` when it lies beyond
    /// the coordinate range.
    fn neighbour(pos: (i32, i32, i32), d: usize) -> (r: Option<(i32, i32, i32)>)
        requires
            d < 6,
        ensures
            ({
                let n = step((pos.0 as int, pos.1 as int, pos.2 as int), d as int);
                match r {
                    Some(m) => m.0 as int == n.0 && m.1 as int == n.1 && m.2 as int == n.2,
                    None => !(is_i32(n.0) && is_i32(n.1) && is_i32(n.2)),
                }
            }),
    {
        let (dx, dy, dz): (i32, i32, i32) = if d == 0 {
            (1, 0, 0)
        } else if d == 1 {
            (-1, 0, 0)
        } else if d == 2 {
            (0, 1, 0)
        } else if d == 3 {
            (0, -1, 0)
        } else if d == 4 {
            (0, 0, 1)
        } else {
            (0, 0, -1)
        };
        match (pos.0.checked_add(dx), pos.1.checked_add(dy), pos.2.checked_add(dz)) {
            (Some(a), Some(b), Some(c)) => Some((a, b, c)),
            _ => None,
        }
    }

    /// The block at a world position inside the world's height, if its chunk
    /// is loaded.
    fn block_here(&self, pos: (i32, i32, i32)) -> (r: Option<Block>)
        requires
            self.wf(),
        ensures
            r == self.block_at(pos.0 as int, pos.1 as int, pos.2 as int),
    {
        if pos.1 < 0 || pos.1 >= CHUNK_HEIGHT as i32 {
            return None;
        }
        match self.get_block_at_world(pos.0, pos.1, pos.2) {
            Some(b) => Some(*b),
            None => None,
        }
    }

    /// Spreads light outwards from every queued position: each neighbour
    /// that lets light through and is darker than what the position passes
    /// on (one level less, or full sky light straight down) is raised and
    /// queued in turn.  Lights only rise; every queued or raised position
    /// ends up having passed its light on, and every raised light is
    /// accounted for by a neighbour.
    fn run_light_propagation_queue(&mut self, queue: VecDeque<(i32, i32, i32)>, Ghost(cap): Ghost<int>)
        requires
            old(self).wf(),
            old(self).lights_bounded(),
            forall|j: int|
                0 <= j < queue@.len() ==> old(self).light_at(
                    (#[trigger] queue@[j]).0 as int,
                    queue@[j].1 as int,
                    queue@[j].2 as int,
                ) <= cap,
        ensures
            forall|x: int, y: int, z: int|
                #[trigger] final(self).light_at(x, y, z) > old(self).light_at(x, y, z) ==> final(self).light_at(
                    x,
                    y,
                    z,
                ) <= cap,
            final(self).wf(),
            final(self).lights_bounded(),
            same_but_light(*old(self), *final(self)),
            lights_grow(*old(self), *final(self)),
            forall|x: int, y: int, z: int|
                (wqueued(queue@, (x, y, z)) || final(self).light_at(x, y, z) > old(self).light_at(x, y, z))
                    ==> #[trigger] final(self).spreads((x, y, z)),
            forall|x: int, y: int, z: int|
                final(self).light_at(x, y, z) > old(self).light_at(x, y, z) ==> #[trigger] final(self).fed((x, y, z))
                    && final(self).holds_clear(x, y, z),
    {
        let mut queue = queue;
        let ghost w0 = *self;
        let ghost q0 = queue@;
        proof {
            lemma_wflood_start(w0, q0);
        }
        while queue.len() > 0
            invariant
                wflood_inv(w0, *self, q0, queue@, no_pos()),
                capped(w0, *self, queue@, cap),
            decreases self.world_dark(), queue@.len(),
        {
            proof {
                lemma_wpop(w0, *self, q0, queue@);
            }
            let ghost qb = queue@;
            let pos = queue.pop_front().unwrap();
            proof {
                assert(qb[0] == pos);
                assert forall|j: int| 0 <= j < queue@.len() implies self.light_at(
                    (#[trigger] queue@[j]).0 as int,
                    queue@[j].1 as int,
                    queue@[j].2 as int,
                ) <= cap by {
                    assert(queue@[j] == qb[j + 1]);
                }
            }
            let ghost p = (pos.0 as int, pos.1 as int, pos.2 as int);
            let current_light = self.get_light_level(pos);
            let neighbor_light = current_light.saturating_sub(1);
            if !(neighbor_light == 0 && current_light <= 1) {
                self.relight_around(&mut queue, pos, current_light, Ghost(w0), Ghost(q0), Ghost(cap));
            } else {
                proof {
                    assert forall|d: int| 0 <= d < 6 implies #[trigger] self.reaches_dir(self.light_at(p.0, p.1, p.2), p, d) by {
                        let n = step(p, d);
                        assert(self.block_at(n.0, n.1, n.2) matches Some(b) ==> b.sky_light >= 0);
                    }
                }
            }
            proof {
                lemma_wrelease(w0, *self, q0, queue@, p);
            }
        }
        proof {
            lemma_wflood_end(w0, *self, q0, queue@);
        }
    }

    fn relight_around(
        &mut self,
        queue: &mut VecDeque<(i32, i32, i32)>,
        pos: (i32, i32, i32),
        current_light: u8,
        Ghost(w0): Ghost<World>,
        Ghost(q0): Ghost<Seq<(i32, i32, i32)>>,
        Ghost(cap): Ghost<int>,
    )
        requires
            wflood_inv(w0, *old(self), q0, old(queue)@, (pos.0 as int, pos.1 as int, pos.2 as int)),
            current_light as int == old(self).light_at(pos.0 as int, pos.1 as int, pos.2 as int),
            current_light > 1,
            current_light <= cap,
            capped(w0, *old(self), old(queue)@, cap),
        ensures
            capped(w0, *final(self), final(queue)@, cap),
            wflood_inv(w0, *final(self), q0, final(queue)@, (pos.0 as int, pos.1 as int, pos.2 as int)),
            final(self).spreads((pos.0 as int, pos.1 as int, pos.2 as int)),
            final(self).world_dark() <= old(self).world_dark(),
            (*final(self) == *old(self) && final(queue)@ == old(queue)@) || final(self).world_dark()
                < old(self).world_dark(),
    {
        let ghost p = (pos.0 as int, pos.1 as int, pos.2 as int);
        let neighbor_light = current_light - 1;
        let mut d: usize = 0;
        while d < 6
            invariant
                0 <= d <= 6,
                current_light > 1,
                neighbor_light == current_light - 1,
                p == (pos.0 as int, pos.1 as int, pos.2 as int),
                wflood_inv(w0, *self, q0, queue@, p),
                self.light_at(p.0, p.1, p.2) == current_light as int,
                current_light <= cap,
                capped(w0, *self, queue@, cap),
                forall|e: int| 0 <= e < d ==> #[trigger] self.reaches_dir(current_light as int, p, e),
                self.world_dark() <= old(self).world_dark(),
                (*self == *old(self) && queue@ == old(queue)@) || self.world_dark() < old(self).world_dark(),
            decreases 6 - d,
        {
            let ghost n = step(p, d as int);
            let ghost w1 = *self;
            let ghost q1 = queue@;
            let nb = Self::neighbour(pos, d);
            if let Some(np) = nb {
                let potential: u8 = if d == DOWN && current_light == MAX_LIGHT {
                    MAX_LIGHT
                } else {
                    neighbor_light
                };
                proof {
                    assert(potential as int == passed_on(current_light as int, d as int));
                    assert(np.0 as int == n.0 && np.1 as int == n.1 && np.2 as int == n.2);
                }
                match self.block_here(np) {
                    Some(b) => {
                        if b.is_transparent() && potential > b.sky_light {
                            proof {
                                assert(w1.block_at(n.0, n.1, n.2) == Some(b));
                                assert(w1.block_at(n.0, n.1, n.2) matches Some(b) ==> b.sky_light <= MAX_LIGHT);
                            }
                            self.set_light_level(np, potential);
                            queue.push_back(np);
                            proof {
                                assert(queue@[q1.len() as int] == np);
                                assert forall|x: int, y: int, z: int|
                                    #[trigger] self.light_at(x, y, z) > w0.light_at(x, y, z) implies self.light_at(x, y, z)
                                        <= cap by {
                                    if (x, y, z) != n {
                                        assert(self.light_at(x, y, z) == w1.light_at(x, y, z));
                                    }
                                }
                                assert forall|j: int| 0 <= j < queue@.len() implies self.light_at(
                                    (#[trigger] queue@[j]).0 as int,
                                    queue@[j].1 as int,
                                    queue@[j].2 as int,
                                ) <= cap by {
                                    if j < q1.len() {
                                        assert(queue@[j] == q1[j]);
                                        let qj = (q1[j].0 as int, q1[j].1 as int, q1[j].2 as int);
                                        if qj != n {
                                            assert(self.light_at(qj.0, qj.1, qj.2) == w1.light_at(qj.0, qj.1, qj.2));
                                        }
                                    }
                                }
                                lemma_relight_step(w0, w1, *self, q0, q1, queue@, p, d as int, potential as int);
                                assert forall|e: int| 0 <= e < d + 1 implies #[trigger] self.reaches_dir(current_light as int, p, e) by {
                                    if e < d {
                                        assert(w1.reaches_dir(current_light as int, p, e));
                                        lemma_reaches_grow(w1, *self, current_light as int, p, e);
                                    }
                                }
                            }
                        } else {
                            proof {
                                assert(w1.block_at(n.0, n.1, n.2) == Some(b));
                                assert(self.reaches_dir(current_light as int, p, d as int));
                            }
                        }
                    },
                    None => {
                        proof {
                            assert(self.reaches_dir(current_light as int, p, d as int));
                        }
                    },
                }
            } else {
                proof {
                    assert(self.block_at(n.0, n.1, n.2) is None);
                    assert(self.reaches_dir(current_light as int, p, d as int));
                }
            }
            d = d + 1;
        }
        proof {
            assert forall|e: int| 0 <= e < 6 implies #[trigger] self.reaches_dir(self.light_at(p.0, p.1, p.2), p, e) by {
                assert(self.reaches_dir(current_light as int, p, e));
            }
        }
    }


    /// Lights a block that has just become transparent: it takes the most
    /// light any neighbour offers (full sky light from straight above, one
    /// level less from anywhere else) and spreads it on.
    fn propagate_light_addition(&mut self, new_air_block_pos: (i32, i32, i32))
        requires
            old(self).wf(),
            old(self).lights_bounded(),
            old(self).light_at(new_air_block_pos.0 as int, new_air_block_pos.1 as int, new_air_block_pos.2 as int) == 0,
            old(self).block_at(new_air_block_pos.0 as int, new_air_block_pos.1 as int, new_air_block_pos.2 as int) is Some
                ==> old(self).holds_clear(new_air_block_pos.0 as int, new_air_block_pos.1 as int, new_air_block_pos.2 as int),
        ensures
            final(self).wf(),
            final(self).lights_bounded(),
            same_but_light(*old(self), *final(self)),
            lights_grow(*old(self), *final(self)),
            old(self).block_at(new_air_block_pos.0 as int, new_air_block_pos.1 as int, new_air_block_pos.2 as int) is Some
                ==> final(self).light_at(new_air_block_pos.0 as int, new_air_block_pos.1 as int, new_air_block_pos.2 as int)
                == gathered(*old(self), (new_air_block_pos.0 as int, new_air_block_pos.1 as int, new_air_block_pos.2 as int)),
            forall|x: int, y: int, z: int|
                final(self).light_at(x, y, z) > old(self).light_at(x, y, z) ==> #[trigger] final(self).spreads((x, y, z))
                    && final(self).holds_clear(x, y, z),
            forall|x: int, y: int, z: int|
                #[trigger] final(self).light_at(x, y, z) > old(self).light_at(x, y, z) ==> final(self).light_at(x, y, z)
                    <= gathered(*old(self), (new_air_block_pos.0 as int, new_air_block_pos.1 as int, new_air_block_pos.2 as int)),
            changes_accounted(*old(self), *final(self)),
    {
        let ghost p = (new_air_block_pos.0 as int, new_air_block_pos.1 as int, new_air_block_pos.2 as int);
        let ghost w0 = *self;
        let mut max_light_from_neighbors: u8 = 0;
        let mut d: usize = 0;
        while d < 6
            invariant
                0 <= d <= 6,
                self.wf(),
                self.lights_bounded(),
                *self == w0,
                p == (new_air_block_pos.0 as int, new_air_block_pos.1 as int, new_air_block_pos.2 as int),
                max_light_from_neighbors as int == gathered_upto(w0, p, d as int),
            decreases 6 - d,
        {
            let ghost n = step(p, d as int);
            proof {
                lemma_gathered_bounds(w0, p, d as int);
                assert(w0.block_at(n.0, n.1, n.2) matches Some(b) ==> b.sky_light <= MAX_LIGHT);
            }
            let nb = Self::neighbour(new_air_block_pos, d);
            if let Some(neighbor_pos) = nb {
                if self.is_block_transparent(neighbor_pos) {
                    let neighbor_light = self.get_light_level(neighbor_pos);
                    if neighbor_light != 0 {
                        let potential_light: u8 = if d == UP && neighbor_light == MAX_LIGHT {
                            MAX_LIGHT
                        } else {
                            neighbor_light - 1
                        };
                        proof {
                            lemma_step_back(p, d as int);
                        }
                        if potential_light > max_light_from_neighbors {
                            max_light_from_neighbors = potential_light;
                        }
                    }
                }
            }
            d = d + 1;
        }
        proof {
            lemma_gathered_bounds(w0, p, 6);
        }
        self.set_light_level(new_air_block_pos, max_light_from_neighbors);
        let ghost w1 = *self;
        proof {
            assert(light_set(w0, w1, p, max_light_from_neighbors as int));
            lemma_light_set_same(w0, w1, p, max_light_from_neighbors as int);
            assert forall|x: int, y: int, z: int| #[trigger] w1.light_at(x, y, z) >= w0.light_at(x, y, z) by {}
        }
        let mut light_propagation_queue: VecDeque<(i32, i32, i32)> = VecDeque::new();
        if max_light_from_neighbors > 0 {
            light_propagation_queue.push_back(new_air_block_pos);
        }
        let ghost q0 = light_propagation_queue@;
        proof {
            if max_light_from_neighbors > 0 {
                assert(q0[0] == new_air_block_pos);
            }
        }
        self.run_light_propagation_queue(light_propagation_queue, Ghost(max_light_from_neighbors as int));
        proof {
            lemma_same_but_light_trans(w0, w1, *self);
            lemma_grow_trans(w0, w1, *self);
            assert(self.light_at(p.0, p.1, p.2) >= w1.light_at(p.0, p.1, p.2));
            assert forall|x: int, y: int, z: int|
                #[trigger] self.light_at(x, y, z) > w0.light_at(x, y, z) implies self.light_at(x, y, z)
                    <= gathered(w0, p) by {
                if self.light_at(x, y, z) <= w1.light_at(x, y, z) {
                    assert((x, y, z) == p);
                }
            }
            if max_light_from_neighbors > 0 {
                assert(q0[0] == new_air_block_pos);
                assert(wqueued(q0, p));
            }
            assert forall|x: int, y: int, z: int|
                self.light_at(x, y, z) > w0.light_at(x, y, z) implies #[trigger] self.spreads((x, y, z))
                    && self.holds_clear(x, y, z) by {
                if self.light_at(x, y, z) <= w1.light_at(x, y, z) {
                    assert((x, y, z) == p);
                    assert(w0.block_at(x, y, z) is Some);
                    assert(max_light_from_neighbors > 0);
                    assert(wqueued(q0, (x, y, z)));
                    assert(w0.holds_clear(x, y, z));
                    assert(self.block_at(x, y, z) is Some == w0.block_at(x, y, z) is Some);
                    assert(self.block_at(x, y, z)->0.block_type == w0.block_at(x, y, z)->0.block_type);
                    assert(self.spreads((x, y, z)));
                    assert(self.holds_clear(x, y, z));
                } else {
                    assert(self.spreads((x, y, z)));
                    assert(self.fed((x, y, z)));
                }
            }
            assert forall|x: int, y: int, z: int| #[trigger] self.light_at(x, y, z) != w0.light_at(x, y, z) implies self.light_at(x, y, z) == 0
                || self.fed((x, y, z)) by {
                if (x, y, z) != p {
                    assert(w1.light_at(x, y, z) == w0.light_at(x, y, z));
                    assert(self.light_at(x, y, z) > w1.light_at(x, y, z));
                    assert(self.spreads((x, y, z)));
                } else if self.light_at(x, y, z) > 0 {
                    lemma_gathered_witness(w0, p, 6);
                    let d = choose|d: int| 0 <= d < 6 && #[trigger] offered(w0, p, d) == gathered_upto(w0, p, 6);
                    let n = step(p, d);
                    lemma_step_back(p, d);
                    assert(n != p);
                    assert(self.light_at(n.0, n.1, n.2) >= w0.light_at(n.0, n.1, n.2));
                    assert(self.block_at(n.0, n.1, n.2) matches Some(b) ==> b.sky_light <= MAX_LIGHT);
                    assert(self.feeds(p, d));
                }
            }
        }
    }


    /// Takes away light that came through a block which has just become
    /// opaque: starting from it, every neighbour lit more dimly than its
    /// source (and a column of full sky light straight below it) is darkened
    /// and darkens its own neighbours in turn; lit neighbours that may have
    /// other sources are relit afterwards.
    #[verifier::spinoff_prover]
    #[verifier::rlimit(50)]
    fn propagate_light_removal(&mut self, new_solid_block_pos: (i32, i32, i32), light_level_removed: u8)
        requires
            old(self).wf(),
            old(self).lights_bounded(),
        ensures
            final(self).wf(),
            final(self).lights_bounded(),
            same_but_light(*old(self), *final(self)),
            dark_stays_dark(*old(self), *final(self)),
            changes_accounted(*old(self), *final(self)),
            dimmed_relit(*old(self), *final(self)),
            light_level_removed == 0 ==> *final(self) == *old(self),
            light_level_removed > 0 ==> forall|x: int, y: int, z: int|
                #[trigger] lit_through(*old(self), (new_solid_block_pos.0 as int, new_solid_block_pos.1 as int, new_solid_block_pos.2 as int), light_level_removed as int, (x, y, z)) ==> final(self).light_at(x, y, z) == 0
                    || final(self).fed((x, y, z)),
            forall|x: int, y: int, z: int|
                #[trigger] final(self).light_at(x, y, z) < old(self).light_at(x, y, z) ==> lit_through(
                    *old(self),
                    (new_solid_block_pos.0 as int, new_solid_block_pos.1 as int, new_solid_block_pos.2 as int),
                    light_level_removed as int,
                    (x, y, z),
                ),
            light_level_removed == MAX_LIGHT && !old(self).clear_at(
                new_solid_block_pos.0 as int,
                new_solid_block_pos.1 as int,
                new_solid_block_pos.2 as int,
            ) ==> forall|k: int|
                k >= 1 && #[trigger] col_full(*old(self), (new_solid_block_pos.0 as int, new_solid_block_pos.1 as int, new_solid_block_pos.2 as int), k) ==> final(self).light_at(
                    new_solid_block_pos.0 as int,
                    new_solid_block_pos.1 as int - k,
                    new_solid_block_pos.2 as int,
                ) < MAX_LIGHT,
            light_level_removed == MAX_LIGHT && !old(self).clear_at(
                new_solid_block_pos.0 as int,
                new_solid_block_pos.1 as int,
                new_solid_block_pos.2 as int,
            ) ==> final(self).light_at(
                new_solid_block_pos.0 as int,
                new_solid_block_pos.1 as int - 1,
                new_solid_block_pos.2 as int,
            ) < MAX_LIGHT,
    {
        let ghost w0 = *self;
        let ghost p = (new_solid_block_pos.0 as int, new_solid_block_pos.1 as int, new_solid_block_pos.2 as int);
        let ghost q = step(p, DOWN as int);
        let ghost full = light_level_removed == MAX_LIGHT;
        if light_level_removed == 0 {
            return;
        }
        self.set_light_level(new_solid_block_pos, 0);
        proof {
            let p = (new_solid_block_pos.0 as int, new_solid_block_pos.1 as int, new_solid_block_pos.2 as int);
            assert(light_set(w0, *self, p, 0));
            lemma_light_set_same(w0, *self, p, 0);
            assert forall|x: int, y: int, z: int| #[trigger] self.light_at(x, y, z) != w0.light_at(x, y, z) implies self.light_at(x, y, z) == 0 by {
            }
        }
        let mut removal_queue: VecDeque<((i32, i32, i32), u8)> = VecDeque::new();
        let mut relight_queue: VecDeque<(i32, i32, i32)> = VecDeque::new();
        removal_queue.push_back((new_solid_block_pos, light_level_removed));
        proof {
            lemma_lit_start(w0, p, light_level_removed as int);
            assert(entry_ok(w0, p, light_level_removed as int, removal_queue@[0]));
            assert forall|x: int, y: int, z: int|
                (#[trigger] self.light_at(x, y, z) != w0.light_at(x, y, z) || (x, y, z) == p) implies (false && (x, y, z) == p)
                    || rpending(removal_queue@, (x, y, z)) || falls_done(w0, *self, p, light_level_removed as int, (x, y, z), 6) by {
                assert(removal_queue@[0] == (new_solid_block_pos, light_level_removed));
            }
            assert forall|k: int| k >= 1 && #[trigger] col_full(w0, p, k) implies {
                ||| self.light_at(p.0, p.1 - k, p.2) == 0
                ||| rpending(removal_queue@, (p.0, p.1 - (k - 1), p.2))
                ||| (no_pos() == (p.0, p.1 - (k - 1), p.2) && 6 <= DOWN)
                ||| self.light_at(p.0, p.1 - (k - 1), p.2) == MAX_LIGHT
            } by {
                if k == 1 {
                    assert(removal_queue@[0] == (new_solid_block_pos, light_level_removed));
                } else {
                    assert(w0.light_at(p.0, p.1 - (k - 1), p.2) == MAX_LIGHT);
                    assert(self.light_at(p.0, p.1 - (k - 1), p.2) == w0.light_at(p.0, p.1 - (k - 1), p.2));
                }
            }
            assert forall|x: int, y: int, z: int| #[trigger] self.light_at(x, y, z) != w0.light_at(x, y, z) implies lit_through(
                w0, p, light_level_removed as int, (x, y, z)) by {
                if (x, y, z) != p {
                    assert(self.light_at(x, y, z) == w0.light_at(x, y, z));
                }
            }
            assert forall|x: int, y: int, z: int| #[trigger] self.light_at(x, y, z) != w0.light_at(x, y, z) implies (x, y, z)
                == no_pos() || rpending(removal_queue@, (x, y, z)) || nb_handled(*self, relight_queue@, (x, y, z)) by {
                assert(removal_queue@[0] == (new_solid_block_pos, light_level_removed));
            }
        }
        let ghost mut first_pending = true;
        while removal_queue.len() > 0
            invariant
                self.wf(),
                self.lights_bounded(),
                same_but_light(w0, *self),
                dark_stays_dark(w0, *self),
                forall|x: int, y: int, z: int| #[trigger] self.light_at(x, y, z) != w0.light_at(x, y, z) ==> self.light_at(x, y, z) == 0,
                p == (new_solid_block_pos.0 as int, new_solid_block_pos.1 as int, new_solid_block_pos.2 as int),
                q == step(p, DOWN as int),
                full == (light_level_removed == MAX_LIGHT),
                first_pending ==> removal_queue@ == seq![(new_solid_block_pos, light_level_removed)],
                self.light_at(p.0, p.1, p.2) == 0,
                !first_pending && full ==> self.light_at(q.0, q.1, q.2) == 0,
                removal_inv(w0, *self, removal_queue@, relight_queue@, no_pos()),
                forall|j: int| 0 <= j < removal_queue@.len() ==> #[trigger] entry_ok(w0, p, light_level_removed as int, removal_queue@[j]),
                forall|x: int, y: int, z: int| #[trigger] self.light_at(x, y, z) != w0.light_at(x, y, z) ==> lit_through(
                    w0, p, light_level_removed as int, (x, y, z)),
                full ==> col_shading(w0, *self, removal_queue@, p, no_pos(), 6),
                fall_inv(w0, *self, removal_queue@, p, light_level_removed as int, false, p),
            ensures
                !first_pending,
                removal_queue@.len() == 0,
            decreases self.world_bright(), removal_queue@.len(),
        {
            let ghost b0 = self.world_bright();
            let ghost len0 = removal_queue@.len();
            let ghost is_first = first_pending;
            proof {
                lemma_removal_pop(w0, *self, removal_queue@, relight_queue@);
                if full {
                    lemma_col_pop(w0, *self, removal_queue@, p);
                }
                lemma_fall_pop(w0, *self, removal_queue@, p, light_level_removed as int);
            }
            let ghost rq0 = removal_queue@;
            let (pos, light_level) = removal_queue.pop_front().unwrap();
            let ghost cur = (pos.0 as int, pos.1 as int, pos.2 as int);
            proof {
                first_pending = false;
                assert(rq0[0] == (pos, light_level));
                assert(removal_queue@ == rq0.drop_first());
                assert(entry_ok(w0, p, light_level_removed as int, rq0[0]));
                assert forall|j: int| 0 <= j < removal_queue@.len() implies #[trigger] entry_ok(w0, p, light_level_removed as int, removal_queue@[j]) by {
                    assert(removal_queue@[j] == rq0[j + 1]);
                }
            }
            let mut d: usize = 0;
            while d < 6
                invariant
                    0 <= d <= 6,
                    self.wf(),
                    self.lights_bounded(),
                    same_but_light(w0, *self),
                    dark_stays_dark(w0, *self),
                    forall|x: int, y: int, z: int| #[trigger] self.light_at(x, y, z) != w0.light_at(x, y, z) ==> self.light_at(x, y, z) == 0,
                    self.world_bright() <= b0,
                    self.world_bright() < b0 || removal_queue@.len() < len0,
                    q == step(p, DOWN as int),
                    full == (light_level_removed == MAX_LIGHT),
                    is_first ==> (pos.0 as int, pos.1 as int, pos.2 as int) == p && light_level == light_level_removed,
                    is_first && full && d > DOWN ==> self.light_at(q.0, q.1, q.2) == 0,
                    p == (new_solid_block_pos.0 as int, new_solid_block_pos.1 as int, new_solid_block_pos.2 as int),
                    self.light_at(p.0, p.1, p.2) == 0,
                    !is_first && full ==> self.light_at(q.0, q.1, q.2) == 0,
                    cur == (pos.0 as int, pos.1 as int, pos.2 as int),
                    removal_inv(w0, *self, removal_queue@, relight_queue@, cur),
                    forall|e: int| 0 <= e < d ==> #[trigger] handled_dir(*self, relight_queue@, cur, e),
                    entry_ok(w0, p, light_level_removed as int, (pos, light_level)),
                    forall|j: int| 0 <= j < removal_queue@.len() ==> #[trigger] entry_ok(w0, p, light_level_removed as int, removal_queue@[j]),
                    forall|x: int, y: int, z: int| #[trigger] self.light_at(x, y, z) != w0.light_at(x, y, z) ==> lit_through(
                        w0, p, light_level_removed as int, (x, y, z)),
                    full ==> col_shading(w0, *self, removal_queue@, p, cur, d as int),
                    fall_inv(w0, *self, removal_queue@, p, light_level_removed as int, true, cur),
                    falls_done(w0, *self, p, light_level_removed as int, cur, d as int),
                decreases 6 - d,
            {
                let nb = Self::neighbour(pos, d);
                if let Some(neighbor_pos) = nb {
                    let neighbor_light = self.get_light_level(neighbor_pos);
                    if neighbor_light != 0 {
                        if neighbor_light < light_level || (d == DOWN && light_level == MAX_LIGHT
                            && neighbor_light == MAX_LIGHT) {
                            let ghost w1 = *self;
                            let ghost np = (neighbor_pos.0 as int, neighbor_pos.1 as int, neighbor_pos.2 as int);
                            proof {
                                assert(np == step(cur, d as int));
                                assert(np != p);
                                assert(w1.light_at(np.0, np.1, np.2) == w0.light_at(np.0, np.1, np.2));
                                assert(falls_to(w0, p, light_level_removed as int, cur, d as int, np));
                                lemma_lit_extend(w0, p, light_level_removed as int, cur, d as int);
                            }
                            self.set_light_level(neighbor_pos, 0);
                            proof {
                                assert(light_set(w1, *self, np, 0));
                                lemma_light_set_same(w1, *self, np, 0);
                                lemma_same_but_light_trans(w0, w1, *self);
                                assert(w1.block_at(np.0, np.1, np.2) is Some);
                                assert forall|x: int, y: int, z: int|
                                    #[trigger] w0.block_at(x, y, z) matches Some(b) && !type_is_transparent(b.block_type)
                                        && b.sky_light == 0 implies self.light_at(x, y, z) == 0 by {
                                    assert(w1.light_at(x, y, z) == 0);
                                }
                                assert forall|x: int, y: int, z: int| #[trigger] self.light_at(x, y, z) != w0.light_at(x, y, z) implies self.light_at(x, y, z) == 0 by {
                                    if (x, y, z) != np {
                                        assert(self.light_at(x, y, z) == w1.light_at(x, y, z));
                                    }
                                }
                            }
                            let ghost rq1 = removal_queue@;
                            removal_queue.push_back((neighbor_pos, neighbor_light));
                            proof {
                                assert(removal_queue@[rq1.len() as int] == (neighbor_pos, neighbor_light));
                                lemma_removal_darken(w0, w1, *self, rq1, removal_queue@, relight_queue@, cur, d as int);
                                if full {
                                    lemma_col_darken(w0, w1, *self, rq1, removal_queue@, p, cur, d as int);
                                }
                                lemma_fall_darken(w0, w1, *self, rq1, removal_queue@, p, light_level_removed as int, cur, d as int);
                                assert(entry_ok(w0, p, light_level_removed as int, (neighbor_pos, neighbor_light)));
                                assert forall|j: int| 0 <= j < removal_queue@.len() implies #[trigger] entry_ok(w0, p, light_level_removed as int, removal_queue@[j]) by {
                                    if j < rq1.len() {
                                        assert(removal_queue@[j] == rq1[j]);
                                    }
                                }
                                assert forall|x: int, y: int, z: int| #[trigger] self.light_at(x, y, z) != w0.light_at(x, y, z) implies lit_through(
                                    w0, p, light_level_removed as int, (x, y, z)) by {
                                    if (x, y, z) != np {
                                        assert(self.light_at(x, y, z) == w1.light_at(x, y, z));
                                    }
                                }
                            }
                        } else {
                            let ghost lq1 = relight_queue@;
                            relight_queue.push_back(neighbor_pos);
                            proof {
                                assert(relight_queue@[lq1.len() as int] == neighbor_pos);
                                lemma_removal_relight(w0, *self, removal_queue@, lq1, relight_queue@, cur, d as int);
                                assert(self.light_at(step(cur, d as int).0, step(cur, d as int).1, step(cur, d as int).2)
                                    == w0.light_at(step(cur, d as int).0, step(cur, d as int).1, step(cur, d as int).2));
                                assert(!falls_to(w0, p, light_level_removed as int, cur, d as int, step(cur, d as int)));
                                lemma_fall_keep(w0, *self, removal_queue@, removal_queue@, p, light_level_removed as int, cur, d as int);
                                if full {
                                    assert forall|k: int|
                                        k >= 1 && #[trigger] col_full(w0, p, k) && cur == (p.0, p.1 - (k - 1), p.2) && d == DOWN implies self.light_at(
                                            p.0, p.1 - k, p.2) == 0 by {
                                        assert(w0.light_at(p.0, p.1 - k, p.2) == MAX_LIGHT);
                                        if k > 1 {
                                            assert(w0.light_at(p.0, p.1 - (k - 1), p.2) == MAX_LIGHT);
                                        }
                                    }
                                    lemma_col_keep(w0, *self, removal_queue@, removal_queue@, p, cur, d as int);
                                }

                            }
                        }
                    } else {
                        proof {
                            assert(handled_dir(*self, relight_queue@, cur, d as int));
                            lemma_fall_keep(w0, *self, removal_queue@, removal_queue@, p, light_level_removed as int, cur, d as int);
                            if full {
                                assert forall|k: int|
                                    k >= 1 && #[trigger] col_full(w0, p, k) && cur == (p.0, p.1 - (k - 1), p.2) && d == DOWN implies self.light_at(
                                        p.0, p.1 - k, p.2) == 0 by {
                                    assert(w0.light_at(p.0, p.1 - k, p.2) == MAX_LIGHT);
                                    if k > 1 {
                                        assert(w0.light_at(p.0, p.1 - (k - 1), p.2) == MAX_LIGHT);
                                    }
                                }
                                lemma_col_keep(w0, *self, removal_queue@, removal_queue@, p, cur, d as int);
                            }
                        }
                    }
                } else {
                    proof {
                        let n = step(cur, d as int);
                        assert(self.block_at(n.0, n.1, n.2) is None);
                        assert(handled_dir(*self, relight_queue@, cur, d as int));
                        lemma_fall_keep(w0, *self, removal_queue@, removal_queue@, p, light_level_removed as int, cur, d as int);
                        if full {
                            assert forall|k: int|
                                k >= 1 && #[trigger] col_full(w0, p, k) && cur == (p.0, p.1 - (k - 1), p.2) && d == DOWN implies self.light_at(
                                    p.0, p.1 - k, p.2) == 0 by {
                                assert(w0.light_at(p.0, p.1 - k, p.2) == MAX_LIGHT);
                                if k > 1 {
                                    assert(w0.light_at(p.0, p.1 - (k - 1), p.2) == MAX_LIGHT);
                                }
                            }
                            lemma_col_keep(w0, *self, removal_queue@, removal_queue@, p, cur, d as int);
                        }

                    }
                }
                d = d + 1;
            }
            proof {
                lemma_removal_release(w0, *self, removal_queue@, relight_queue@, cur);
                lemma_fall_release(w0, *self, removal_queue@, p, light_level_removed as int, cur);
            }
        }
        let ghost w2 = *self;
        proof {
            assert forall|j: int| 0 <= j < relight_queue@.len() implies w2.light_at(
                (#[trigger] relight_queue@[j]).0 as int,
                relight_queue@[j].1 as int,
                relight_queue@[j].2 as int,
            ) <= MAX_LIGHT by {
                let q = relight_queue@[j];
                assert(w2.block_at(q.0 as int, q.1 as int, q.2 as int) matches Some(b) ==> b.sky_light <= MAX_LIGHT);
            }
        }
        let ghost lq = relight_queue@;
        self.run_light_propagation_queue(relight_queue, Ghost(MAX_LIGHT as int));
        proof {
            lemma_same_but_light_trans(w0, w2, *self);
            assert(removal_queue@ =~= Seq::<((i32, i32, i32), u8)>::empty());
            assert forall|x: int, y: int, z: int|
                #[trigger] lit_through(w0, p, light_level_removed as int, (x, y, z)) implies self.light_at(x, y, z) == 0 || self.fed((x, y, z)) by {
                lemma_lit_dark(w0, w2, p, light_level_removed as int, (x, y, z));
                if self.light_at(x, y, z) > w2.light_at(x, y, z) {
                    assert(self.fed((x, y, z)));
                }
            }
            if full && !w0.clear_at(p.0, p.1, p.2) {
                if self.light_at(p.0, p.1, p.2) > w2.light_at(p.0, p.1, p.2) {
                    assert(self.fed(p));
                    assert(self.holds_clear(p.0, p.1, p.2));
                    assert(w0.block_at(p.0, p.1, p.2) is Some);
                }
                assert forall|x: int, y: int, z: int| #[trigger] self.light_at(x, y, z) > w2.light_at(x, y, z) implies self.fed((x, y, z)) by {
                    assert(self.fed((x, y, z)));
                }
                lemma_column_after(w0, w2, *self, p, removal_queue@);
            }
            assert forall|x: int, y: int, z: int, d: int|
                0 <= d < 6 && self.light_at(x, y, z) < w0.light_at(x, y, z) && self.holds_clear(x, y, z)
                    implies #[trigger] takes_from(*self, (x, y, z), d) by {
                let n = step((x, y, z), d);
                lemma_step_back((x, y, z), d);
                assert(w2.light_at(x, y, z) != w0.light_at(x, y, z));
                assert(!rpending(removal_queue@, (x, y, z)));
                assert(nb_handled(w2, lq, (x, y, z)));
                assert(handled_dir(w2, lq, (x, y, z), d));
                if self.light_at(n.0, n.1, n.2) > 0 {
                    assert(self.spreads(n));
                    assert(self.reaches_dir(self.light_at(n.0, n.1, n.2), n, opposite(d)));
                }
            }
            assert forall|x: int, y: int, z: int|
                #[trigger] w0.block_at(x, y, z) matches Some(b) && !type_is_transparent(b.block_type)
                    && b.sky_light == 0 implies self.light_at(x, y, z) == 0 by {
                assert(w2.light_at(x, y, z) == 0);
                if self.light_at(x, y, z) > w2.light_at(x, y, z) {
                    assert(self.fed((x, y, z)));
                    assert(w2.block_at(x, y, z) is Some);
                }
            }
            assert forall|x: int, y: int, z: int| #[trigger] self.light_at(x, y, z) != w0.light_at(x, y, z) implies self.light_at(x, y, z) == 0
                || self.fed((x, y, z)) by {
                if self.light_at(x, y, z) > w2.light_at(x, y, z) {
                    assert(self.fed((x, y, z)));
                } else {
                    assert(self.light_at(x, y, z) >= w2.light_at(x, y, z));
                    assert(w2.light_at(x, y, z) != w0.light_at(x, y, z));
                }
            }
            if full && !w0.clear_at(p.0, p.1, p.2) {
                assert(w2.light_at(q.0, q.1, q.2) == 0);
                assert(w2.light_at(p.0, p.1, p.2) == 0);
                if self.light_at(p.0, p.1, p.2) > w2.light_at(p.0, p.1, p.2) {
                    assert(self.fed(p));
                    assert(self.holds_clear(p.0, p.1, p.2));
                    assert(w0.block_at(p.0, p.1, p.2) is Some);
                }
                assert(self.light_at(p.0, p.1, p.2) == 0);
                if self.light_at(q.0, q.1, q.2) == MAX_LIGHT {
                    assert(self.light_at(q.0, q.1, q.2) > w2.light_at(q.0, q.1, q.2));
                    assert(self.spreads(q));
                    assert(self.fed(q));
                    let d = choose|d: int| 0 <= d < 6 && #[trigger] self.feeds(q, d);
                    let n = step(q, d);
                    assert(self.block_at(n.0, n.1, n.2) matches Some(b) ==> b.sky_light <= MAX_LIGHT);
                    assert(d == UP);
                    assert(n == p);
                }
            }
        }
    }


    /// Replaces the block at a world position by a fresh block of
    /// `block_type`, loading (generating) its chunk if needed, and updates
    /// the sky light when the block's transparency changes.  Fails outside
    /// the world's height, and when that change would replace bedrock.
    /// On success returns the coordinates of the chunk that changed.  Sky
    /// light levels lie in 0..=15; the call takes loaded lights in that range
    /// and keeps them there.
    #[verifier::spinoff_prover]
    #[verifier::rlimit(50)]
    pub fn set_block(&mut self, world_block_pos: (i32, i32, i32), block_type: BlockType) -> (r: Result<
        (i32, i32),
        &'static str,
    >)
        requires
            old(self).wf(),
            old(self).lights_bounded(),
        ensures
            final(self).wf(),
            final(self).lights_bounded(),
            block_set(*old(self), *final(self), world_block_pos, block_type, r),
            old(self).opaque_dark() ==> final(self).opaque_dark(),
    {
        let ghost w0 = *self;
        let ghost p = (world_block_pos.0 as int, world_block_pos.1 as int, world_block_pos.2 as int);
        if world_block_pos.1 < 0 || world_block_pos.1 >= CHUNK_HEIGHT as i32 {
            return Err("Y coordinate out of world bounds");
        }
        let old_block_was_transparent = self.is_block_transparent(world_block_pos);
        let new_block_is_transparent = Block::new(block_type).is_transparent();
        let old_light = self.get_light_level(world_block_pos);
        let ((chunk_x, chunk_z), (local_x, local_y, local_z)) = World::world_to_chunk_coords(
            world_block_pos.0,
            world_block_pos.1,
            world_block_pos.2,
        );
        if old_block_was_transparent == new_block_is_transparent {
            let chunk = self.get_or_create_chunk(chunk_x, chunk_z);
            let ghost c = *chunk;
            let _ = chunk.set_block(local_x, local_y, local_z, block_type);
            proof {
                let c2 = self.chunk_at(chunk_x as int, chunk_z as int)->0;
                assert(chunk_swapped(w0, *self, p, c, c2));
                lemma_block_replaced(w0, *self, p, block_type, c, c2);
            }
            return Ok((chunk_x, chunk_z));
        }
        let chunk = self.get_or_create_chunk(chunk_x, chunk_z);
        let ghost c = *chunk;
        let is_bedrock = match chunk.get_block(local_x, local_y, local_z) {
            Some(b) => b.block_type == BlockType::Bedrock,
            None => false,
        };
        if is_bedrock {
            proof {
                let c2 = self.chunk_at(chunk_x as int, chunk_z as int)->0;
                assert(chunk_swapped(w0, *self, p, c, c2));
                lemma_swap_blocks(w0, *self, p, c, c2);
                lemma_chunk_loaded_only(w0, *self, p, c);
            }
            return Err("Cannot replace Bedrock");
        }
        let _ = chunk.set_block(local_x, local_y, local_z, block_type);
        let ghost w1 = *self;
        proof {
            let c2 = self.chunk_at(chunk_x as int, chunk_z as int)->0;
            assert(chunk_swapped(w0, w1, p, c, c2));
            lemma_block_replaced(w0, w1, p, block_type, c, c2);
        }
        if !old_block_was_transparent && new_block_is_transparent {
            self.propagate_light_addition(world_block_pos);
        } else {
            self.propagate_light_removal(world_block_pos, old_light);
        }
        proof {
            if loaded(w0, p) {
                lemma_gathered_same(w0, w1, p, 6);
            }
            assert forall|x: int, y: int, z: int|
                (x, y, z) != p && (#[trigger] w0.block_at(x, y, z)) is Some implies ({
                    &&& self.block_at(x, y, z) is Some
                    &&& self.block_at(x, y, z)->0.block_type == w0.block_at(x, y, z)->0.block_type
                    &&& self.block_at(x, y, z)->0.tree_id == w0.block_at(x, y, z)->0.tree_id
                    &&& self.block_at(x, y, z)->0.block_light == w0.block_at(x, y, z)->0.block_light
                }) by {
                assert(w1.block_at(x, y, z) == w0.block_at(x, y, z));
                assert(self.block_at(x, y, z) is Some == w1.block_at(x, y, z) is Some);
            }
            assert forall|cx: int, cz: int|
                #[trigger] self.chunk_at(cx, cz) is Some <==> w1.chunk_at(cx, cz) is Some by {}
            assert(self.block_at(p.0, p.1, p.2) is Some == w1.block_at(p.0, p.1, p.2) is Some);
            if !new_block_is_transparent {
                assert(w1.block_at(p.0, p.1, p.2) matches Some(b) && !type_is_transparent(b.block_type) && b.sky_light == 0);
                lemma_placed_dims(w0, w1, *self, p, old_light as int);
                lemma_placed_lit(w0, w1, *self, p, old_light as int);
                if old_light == MAX_LIGHT {
                    lemma_column_transfer(w0, w1, *self, p);
                }
                assert forall|x: int, y: int, z: int, d: int|
                    0 <= d < 6 && self.light_at(x, y, z) < w0.light_at(x, y, z) && self.holds_clear(x, y, z)
                        implies #[trigger] takes_from(*self, (x, y, z), d) by {
                    assert(w0.block_at(x, y, z) is Some);
                    assert((x, y, z) != p);
                    assert(w1.block_at(x, y, z) == w0.block_at(x, y, z));
                    assert(self.light_at(x, y, z) < w1.light_at(x, y, z));
                }
            }
            if w0.opaque_dark() {
                assert forall|x: int, y: int, z: int| #[trigger] self.block_at(x, y, z) is Some && !type_is_transparent(
                    self.block_at(x, y, z)->0.block_type) implies self.block_at(x, y, z)->0.sky_light == 0 by {
                    assert(w1.block_at(x, y, z) is Some);
                    assert(w1.block_at(x, y, z)->0.block_type == self.block_at(x, y, z)->0.block_type);
                    assert(w1.light_at(x, y, z) == 0);
                    if new_block_is_transparent {
                        if self.light_at(x, y, z) > w1.light_at(x, y, z) {
                            assert(self.spreads((x, y, z)));
                        }
                    }
                    assert(self.light_at(x, y, z) == 0);
                }
                if !new_block_is_transparent {
                    lemma_dimmed_settle(w0, w1, *self, p);
                }
            }
        }
        Ok((chunk_x, chunk_z))
    }

    /// Loads the chunk at (chunk_x, chunk_z), generating it if it is not
    /// loaded yet; every other chunk stays as it was.
    pub fn load_chunk(&mut self, chunk_x: i32, chunk_z: i32)
        requires
            old(self).wf(),
        ensures
            final(self).wf(),
            old(self).chunk_at(chunk_x as int, chunk_z as int) matches Some(c) ==> final(self).chunk_at(
                chunk_x as int,
                chunk_z as int,
            ) == Some(c),
            old(self).chunk_at(chunk_x as int, chunk_z as int) is None ==> (final(self).chunk_at(
                chunk_x as int,
                chunk_z as int,
            ) matches Some(c) && generated(c, chunk_x as int, chunk_z as int)),
            forall|cx: int, cz: int|
                (cx, cz) != (chunk_x as int, chunk_z as int) ==> #[trigger] final(self).chunk_at(cx, cz)
                    == old(self).chunk_at(cx, cz),
            old(self).lights_bounded() ==> final(self).lights_bounded(),
            old(self).opaque_dark() ==> final(self).opaque_dark(),
    {
        let ghost w0 = *self;
        let chunk = self.get_or_create_chunk(chunk_x, chunk_z);
        let ghost c = *chunk;
        proof {
            let k = key_of(chunk_x as int, chunk_z as int);
            if w0.chunk_at(chunk_x as int, chunk_z as int) is Some {
                assert(w0.chunk_map().contains_key(k));
            }
            assert(c.wf());
            assert(self.chunk_at(chunk_x as int, chunk_z as int) == Some(c));
            assert forall|x: int, y: int, z: int| #[trigger] self.block_at(x, y, z) is Some implies ({
                let b = self.block_at(x, y, z)->0;
                &&& w0.lights_bounded() ==> b.sky_light <= MAX_LIGHT
                &&& w0.opaque_dark() && !type_is_transparent(b.block_type) ==> b.sky_light == 0
            }) by {
                if (chunk_of(x), chunk_of(z)) == (chunk_x as int, chunk_z as int) {
                    if w0.chunk_at(chunk_x as int, chunk_z as int) is Some {
                        assert(w0.block_at(x, y, z) == self.block_at(x, y, z));
                    } else {
                        assert(in_chunk(local_of(x), y, local_of(z)));
                        assert(crate::chunk::settled_at(c@, local_of(x), y, local_of(z)));
                    }
                } else {
                    assert(self.chunk_at(chunk_of(x), chunk_of(z)) == w0.chunk_at(chunk_of(x), chunk_of(z)));
                    assert(w0.block_at(x, y, z) == self.block_at(x, y, z));
                }
            }
        }
    }

    /// Loads the three by three chunks around (center_x, center_z) and
    /// returns their coordinates, x offset slowest.
    pub fn load_active_chunks(&mut self, center_x: i32, center_z: i32) -> (r: Vec<(i32, i32)>)
        requires
            old(self).wf(),
            i32::MIN < center_x < i32::MAX,
            i32::MIN < center_z < i32::MAX,
        ensures
            final(self).wf(),
            r@.len() == 9,
            forall|i: int|
                0 <= i < 9 ==> #[trigger] r@[i] == ((center_x + i / 3 - 1) as i32, (center_z + i % 3 - 1) as i32),
            forall|i: int| 0 <= i < 9 ==> final(self).chunk_at(#[trigger] r@[i].0 as int, r@[i].1 as int) is Some,
            forall|cx: int, cz: int|
                old(self).chunk_at(cx, cz) matches Some(c) ==> #[trigger] final(self).chunk_at(cx, cz) == Some(c),
            forall|cx: int, cz: int|
                !(center_x - 1 <= cx <= center_x + 1 && center_z - 1 <= cz <= center_z + 1)
                    ==> #[trigger] final(self).chunk_at(cx, cz) == old(self).chunk_at(cx, cz),
            old(self).lights_bounded() ==> final(self).lights_bounded(),
            old(self).opaque_dark() ==> final(self).opaque_dark(),
    {
        let ghost w0 = *self;
        let mut r: Vec<(i32, i32)> = Vec::new();
        let mut dx: i32 = -1;
        while dx <= 1
            invariant
                -1 <= dx <= 2,
                self.wf(),
                i32::MIN < center_x < i32::MAX,
                i32::MIN < center_z < i32::MAX,
                r@.len() == 3 * (dx + 1),
                forall|i: int|
                    0 <= i < r@.len() ==> #[trigger] r@[i] == ((center_x + i / 3 - 1) as i32, (center_z + i % 3 - 1) as i32),
                forall|i: int| 0 <= i < r@.len() ==> self.chunk_at(#[trigger] r@[i].0 as int, r@[i].1 as int) is Some,
                forall|cx: int, cz: int|
                    w0.chunk_at(cx, cz) matches Some(c) ==> #[trigger] self.chunk_at(cx, cz) == Some(c),
                forall|cx: int, cz: int|
                    !(center_x - 1 <= cx <= center_x + 1 && center_z - 1 <= cz <= center_z + 1)
                        ==> #[trigger] self.chunk_at(cx, cz) == w0.chunk_at(cx, cz),
                w0.lights_bounded() ==> self.lights_bounded(),
                w0.opaque_dark() ==> self.opaque_dark(),
            decreases 2 - dx,
        {
            let mut dz: i32 = -1;
            while dz <= 1
                invariant
                    -1 <= dx <= 1,
                    -1 <= dz <= 2,
                    self.wf(),
                    i32::MIN < center_x < i32::MAX,
                    i32::MIN < center_z < i32::MAX,
                    r@.len() == 3 * (dx + 1) + dz + 1,
                    forall|i: int|
                        0 <= i < r@.len() ==> #[trigger] r@[i] == ((center_x + i / 3 - 1) as i32, (center_z + i % 3 - 1) as i32),
                    forall|i: int| 0 <= i < r@.len() ==> self.chunk_at(#[trigger] r@[i].0 as int, r@[i].1 as int) is Some,
                    forall|cx: int, cz: int|
                        w0.chunk_at(cx, cz) matches Some(c) ==> #[trigger] self.chunk_at(cx, cz) == Some(c),
                    forall|cx: int, cz: int|
                        !(center_x - 1 <= cx <= center_x + 1 && center_z - 1 <= cz <= center_z + 1)
                            ==> #[trigger] self.chunk_at(cx, cz) == w0.chunk_at(cx, cz),
                    w0.lights_bounded() ==> self.lights_bounded(),
                    w0.opaque_dark() ==> self.opaque_dark(),
                decreases 2 - dz,
            {
                let target = (center_x + dx, center_z + dz);
                let ghost n = r@.len() as int;
                let ghost w1 = *self;
                self.load_chunk(target.0, target.1);
                r.push(target);
                proof {
                    assert(n / 3 == dx + 1 && n % 3 == dz + 1) by (nonlinear_arith)
                        requires
                            n == 3 * (dx + 1) + dz + 1,
                            0 <= dz + 1 < 3,
                    ;
                    assert forall|i: int| 0 <= i < r@.len() implies self.chunk_at(#[trigger] r@[i].0 as int, r@[i].1 as int) is Some by {
                        if i < n {
                            assert(w1.chunk_at(r@[i].0 as int, r@[i].1 as int) is Some);
                        }
                    }
                }
                dz = dz + 1;
            }
            dx = dx + 1;
        }
        r
    }

    /// The chunk at (chunk_x, chunk_z), if loaded.
    pub fn get_chunk(&self, chunk_x: i32, chunk_z: i32) -> (r: Option<&Chunk>)
        ensures
            r == match self.chunk_at(chunk_x as int, chunk_z as int) {
                Some(c) => Some(&c),
                None => None::<&Chunk>,
            },
            self.wf() ==> (r matches Some(c) ==> c.coords() == (chunk_x, chunk_z)),
    {
        proof {
            if self.wf() && self.chunk_at(chunk_x as int, chunk_z as int) is Some {
                lemma_chunk_coords(*self, chunk_x as int, chunk_z as int);
            }
        }
        self.chunks.get(&Self::key(chunk_x, chunk_z))
    }
}

impl Default for World {
    /// An empty world.
    fn default() -> (w: Self)
        ensures
            w.wf(),
            forall|cx: int, cz: int| #[trigger] w.chunk_at(cx, cz) is None,
    {
        World::new()
    }
}

/// Reading a block back after a successful `World::set_block` gives a block
/// of the type that was set.
pub proof fn law_read_after_set(
    w: World,
    w2: World,
    pos: (i32, i32, i32),
    t: BlockType,
    r: Result<(i32, i32), &str>,
)
    requires
        block_set(w, w2, pos, t, r),
        r is Ok,
    ensures
        w2.block_at(pos.0 as int, pos.1 as int, pos.2 as int) matches Some(b) && b.block_type == t,
{
}

/// Digging out an opaque block (other than bedrock) that lies right below a
/// transparent block with full sky light succeeds and lets full sky light
/// into the dug position.
pub proof fn law_dig_under_open_sky(
    w: World,
    w2: World,
    pos: (i32, i32, i32),
    t: BlockType,
    r: Result<(i32, i32), &str>,
)
    requires
        w.lights_bounded(),
        w2.lights_bounded(),
        block_set(w, w2, pos, t, r),
        type_is_transparent(t),
        !w.clear_at(pos.0 as int, pos.1 as int, pos.2 as int),
        !bedrock_there(w, (pos.0 as int, pos.1 as int, pos.2 as int)),
        w.holds_clear(pos.0 as int, pos.1 as int + 1, pos.2 as int),
        w.light_at(pos.0 as int, pos.1 as int + 1, pos.2 as int) == MAX_LIGHT,
    ensures
        r is Ok,
        w2.light_at(pos.0 as int, pos.1 as int, pos.2 as int) == MAX_LIGHT,
{
    let p = (pos.0 as int, pos.1 as int, pos.2 as int);
    lemma_gathered_bounds(w, p, 6);
    assert(offered(w, p, UP as int) == MAX_LIGHT);
    assert(w2.block_at(p.0, p.1, p.2) matches Some(b) ==> b.sky_light <= MAX_LIGHT);
}

/// Digging out an opaque block (other than bedrock) succeeds, and the dug
/// position is lit at least one level less than any transparent neighbour.
pub proof fn law_dig_takes_neighbour_light(
    w: World,
    w2: World,
    pos: (i32, i32, i32),
    t: BlockType,
    r: Result<(i32, i32), &str>,
    d: int,
)
    requires
        w.lights_bounded(),
        block_set(w, w2, pos, t, r),
        type_is_transparent(t),
        !w.clear_at(pos.0 as int, pos.1 as int, pos.2 as int),
        !bedrock_there(w, (pos.0 as int, pos.1 as int, pos.2 as int)),
        0 <= d < 6,
        w.holds_clear(
            step((pos.0 as int, pos.1 as int, pos.2 as int), d).0,
            step((pos.0 as int, pos.1 as int, pos.2 as int), d).1,
            step((pos.0 as int, pos.1 as int, pos.2 as int), d).2,
        ),
    ensures
        r is Ok,
        w2.light_at(pos.0 as int, pos.1 as int, pos.2 as int) >= w.light_at(
            step((pos.0 as int, pos.1 as int, pos.2 as int), d).0,
            step((pos.0 as int, pos.1 as int, pos.2 as int), d).1,
            step((pos.0 as int, pos.1 as int, pos.2 as int), d).2,
        ) - 1,
{
    let p = (pos.0 as int, pos.1 as int, pos.2 as int);
    lemma_gathered_bounds(w, p, 6);
    assert(offered(w, p, d) <= gathered(w, p));
    assert(w2.block_at(p.0, p.1, p.2) matches Some(b) ==> b.sky_light >= 0);
}

/// Digging out an opaque block (other than bedrock) succeeds and lets the
/// light the dug position takes flow on: every neighbour that lets light
/// through ends up at least as bright as what the dug block passes on to it.
pub proof fn law_dig_lights_neighbours(
    w: World,
    w2: World,
    pos: (i32, i32, i32),
    t: BlockType,
    r: Result<(i32, i32), &str>,
    d: int,
)
    requires
        block_set(w, w2, pos, t, r),
        type_is_transparent(t),
        !w.clear_at(pos.0 as int, pos.1 as int, pos.2 as int),
        !bedrock_there(w, (pos.0 as int, pos.1 as int, pos.2 as int)),
        0 <= d < 6,
        w2.holds_clear(
            step((pos.0 as int, pos.1 as int, pos.2 as int), d).0,
            step((pos.0 as int, pos.1 as int, pos.2 as int), d).1,
            step((pos.0 as int, pos.1 as int, pos.2 as int), d).2,
        ),
    ensures
        r is Ok,
        w2.light_at(
            step((pos.0 as int, pos.1 as int, pos.2 as int), d).0,
            step((pos.0 as int, pos.1 as int, pos.2 as int), d).1,
            step((pos.0 as int, pos.1 as int, pos.2 as int), d).2,
        ) >= passed_on(w2.light_at(pos.0 as int, pos.1 as int, pos.2 as int), d),
{
    let p = (pos.0 as int, pos.1 as int, pos.2 as int);
    assert(loaded(w, p));
    assert(w2.reaches_dir(w2.light_at(p.0, p.1, p.2), p, d));
}

/// Digging out an opaque block (other than bedrock) succeeds and brightens
/// nothing beyond the dug block: every light that rose is at most the light
/// the dug block took.
pub proof fn law_dig_brightens_nothing_beyond_dug_block(
    w: World,
    w2: World,
    pos: (i32, i32, i32),
    t: BlockType,
    r: Result<(i32, i32), &str>,
    x: Pos,
)
    requires
        block_set(w, w2, pos, t, r),
        type_is_transparent(t),
        !w.clear_at(pos.0 as int, pos.1 as int, pos.2 as int),
        !bedrock_there(w, (pos.0 as int, pos.1 as int, pos.2 as int)),
        w2.light_at(x.0, x.1, x.2) > w.light_at(x.0, x.1, x.2),
    ensures
        r is Ok,
        w2.light_at(x.0, x.1, x.2) <= w2.light_at(pos.0 as int, pos.1 as int, pos.2 as int),
{
    assert(loaded(w, (pos.0 as int, pos.1 as int, pos.2 as int)));
}

/// Placing an opaque block inside the world's height succeeds unless it
/// would replace bedrock, and leaves the placed block dark.
pub proof fn law_placed_block_is_dark(
    w: World,
    w2: World,
    pos: (i32, i32, i32),
    t: BlockType,
    r: Result<(i32, i32), &str>,
)
    requires
        block_set(w, w2, pos, t, r),
        !type_is_transparent(t),
        0 <= pos.1 < CHUNK_HEIGHT,
        !bedrock_there(w, (pos.0 as int, pos.1 as int, pos.2 as int)),
    ensures
        r is Ok,
        w2.light_at(pos.0 as int, pos.1 as int, pos.2 as int) == 0,
{
}

/// Placing an opaque block where there was full sky light succeeds and
/// casts a shadow: the block right below it no longer has full sky light.
pub proof fn law_roof_casts_shadow(
    w: World,
    w2: World,
    pos: (i32, i32, i32),
    t: BlockType,
    r: Result<(i32, i32), &str>,
)
    requires
        block_set(w, w2, pos, t, r),
        !type_is_transparent(t),
        w.clear_at(pos.0 as int, pos.1 as int, pos.2 as int),
        w.light_at(pos.0 as int, pos.1 as int, pos.2 as int) == MAX_LIGHT,
    ensures
        r is Ok,
        w2.light_at(pos.0 as int, pos.1 as int - 1, pos.2 as int) < MAX_LIGHT,
{
}

/// Placing an opaque block into full sky light, in a world where no opaque
/// block holds light, shades the full-light column below it, and each
/// shaded block that lets light through and has a transparent side
/// neighbour with full light ends with exactly one level less than full
/// light: the shaded column is relit from the side.
pub proof fn law_roof_shade_relit_from_side(
    w: World,
    w2: World,
    pos: (i32, i32, i32),
    t: BlockType,
    r: Result<(i32, i32), &str>,
    k: int,
    d: int,
)
    requires
        w.lights_bounded(),
        w2.lights_bounded(),
        w.opaque_dark(),
        block_set(w, w2, pos, t, r),
        !type_is_transparent(t),
        w.clear_at(pos.0 as int, pos.1 as int, pos.2 as int),
        w.light_at(pos.0 as int, pos.1 as int, pos.2 as int) == MAX_LIGHT,
        k >= 1,
        col_full(w, (pos.0 as int, pos.1 as int, pos.2 as int), k),
        w2.holds_clear(pos.0 as int, pos.1 as int - k, pos.2 as int),
        d == 0 || d == 1 || d == 4 || d == 5,
        w.holds_clear(
            step((pos.0 as int, pos.1 as int - k, pos.2 as int), d).0,
            step((pos.0 as int, pos.1 as int - k, pos.2 as int), d).1,
            step((pos.0 as int, pos.1 as int - k, pos.2 as int), d).2,
        ),
        w.light_at(
            step((pos.0 as int, pos.1 as int - k, pos.2 as int), d).0,
            step((pos.0 as int, pos.1 as int - k, pos.2 as int), d).1,
            step((pos.0 as int, pos.1 as int - k, pos.2 as int), d).2,
        ) == MAX_LIGHT,
    ensures
        r is Ok,
        w2.light_at(pos.0 as int, pos.1 as int - k, pos.2 as int) == MAX_LIGHT - 1,
{
    let p = (pos.0 as int, pos.1 as int, pos.2 as int);
    let q = (p.0, p.1 - k, p.2);
    let n = step(q, d);
    assert(w.block_at(p.0, p.1, p.2) matches Some(b) ==> b.sky_light <= MAX_LIGHT);
    assert(w.light_at(q.0, q.1, q.2) == MAX_LIGHT);
    assert(w2.light_at(q.0, q.1, q.2) < MAX_LIGHT);
    law_placing_keeps_other_light(w, w2, pos, t, r, n);
    assert(w2.block_at(n.0, n.1, n.2) matches Some(b) ==> b.sky_light <= MAX_LIGHT);
    assert(w2.holds_clear(n.0, n.1, n.2));
    assert(w2.light_at(q.0, q.1, q.2) == gathered(w2, q));
    lemma_gathered_bounds(w2, q, 6);
    assert(offered(w2, q, d) == MAX_LIGHT - 1);
}

/// Placing an opaque block keeps light that did not come through it: every
/// other block at least as bright as the replaced block, outside the
/// full-light column straight below it, keeps at least its light.
pub proof fn law_placing_keeps_other_light(
    w: World,
    w2: World,
    pos: (i32, i32, i32),
    t: BlockType,
    r: Result<(i32, i32), &str>,
    x: Pos,
)
    requires
        w.lights_bounded(),
        block_set(w, w2, pos, t, r),
        r is Ok,
        !type_is_transparent(t),
        w.clear_at(pos.0 as int, pos.1 as int, pos.2 as int),
        x != (pos.0 as int, pos.1 as int, pos.2 as int),
        w.light_at(x.0, x.1, x.2) >= w.light_at(pos.0 as int, pos.1 as int, pos.2 as int),
        !(x.0 == pos.0 && x.2 == pos.2 && x.1 < pos.1 && w.light_at(x.0, x.1, x.2) == MAX_LIGHT),
    ensures
        w2.light_at(x.0, x.1, x.2) >= w.light_at(x.0, x.1, x.2),
{
    let p = (pos.0 as int, pos.1 as int, pos.2 as int);
    assert(w.block_at(p.0, p.1, p.2) matches Some(b) ==> b.sky_light <= MAX_LIGHT);
    if w2.light_at(x.0, x.1, x.2) < w.light_at(x.0, x.1, x.2) {
        lemma_lit_bound(w, p, w.light_at(p.0, p.1, p.2), x);
    }
}

/// After placing an opaque block where light passed, a transparent block
/// that lost light is relit from the side: it holds at least what any lit
/// neighbour passes on to it (one level less, or full sky light from
/// straight above).
pub proof fn law_shadow_lit_from_side(
    w: World,
    w2: World,
    pos: (i32, i32, i32),
    t: BlockType,
    r: Result<(i32, i32), &str>,
    x: Pos,
    d: int,
)
    requires
        block_set(w, w2, pos, t, r),
        r is Ok,
        !type_is_transparent(t),
        w.clear_at(pos.0 as int, pos.1 as int, pos.2 as int),
        0 <= d < 6,
        w2.light_at(x.0, x.1, x.2) < w.light_at(x.0, x.1, x.2),
        w2.holds_clear(x.0, x.1, x.2),
        w2.light_at(step(x, d).0, step(x, d).1, step(x, d).2) > 0,
    ensures
        w2.light_at(x.0, x.1, x.2) >= passed_on(w2.light_at(step(x, d).0, step(x, d).1, step(x, d).2), opposite(d)),
{
    assert(takes_from(w2, x, d));
}

} // verus!
