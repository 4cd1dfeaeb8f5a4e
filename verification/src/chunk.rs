use vstd::prelude::*;
use std::collections::VecDeque;
use crate::block::{Block, BlockType, fresh_block, type_is_transparent};
use crate::randomness::{random_in_range, random_ratio, thread_rng};
use rand::rngs::ThreadRng;

verus! {

pub const CHUNK_WIDTH: usize = 16;
pub const CHUNK_HEIGHT: usize = 32;
pub const CHUNK_DEPTH: usize = 16;
/// Number of blocks in a chunk.
pub const CHUNK_VOLUME: usize = 8192;
/// The highest light level.
pub const MAX_LIGHT: u8 = 15;

/// Whether a local position lies inside a chunk.
pub open spec fn in_chunk(x: int, y: int, z: int) -> bool {
    0 <= x < CHUNK_WIDTH && 0 <= y < CHUNK_HEIGHT && 0 <= z < CHUNK_DEPTH
}

/// Where the block at a local position is stored.
pub open spec fn block_index(x: int, y: int, z: int) -> int {
    x * 512 + y * 16 + z
}

/// The block at a local position of a chunk's contents.
pub open spec fn cell(s: Seq<Block>, x: int, y: int, z: int) -> Block {
    s[block_index(x, y, z)]
}

/// The sky light at a local position.
pub open spec fn light(s: Seq<Block>, x: int, y: int, z: int) -> int {
    cell(s, x, y, z).sky_light as int
}

/// A position inside the chunk whose block lets light through.
pub open spec fn transparent_at(s: Seq<Block>, x: int, y: int, z: int) -> bool {
    in_chunk(x, y, z) && type_is_transparent(cell(s, x, y, z).block_type)
}

/// Two contents that differ at most in their sky light.
pub open spec fn same_but_sky(a: Seq<Block>, b: Seq<Block>) -> bool {
    &&& a.len() == b.len()
    &&& forall|i: int|
        0 <= i < a.len() ==> {
            &&& (#[trigger] a[i]).block_type == b[i].block_type
            &&& a[i].tree_id == b[i].tree_id
            &&& a[i].block_light == b[i].block_light
        }
}

pub proof fn lemma_index_bounds(x: int, y: int, z: int)
    requires
        in_chunk(x, y, z),
    ensures
        0 <= block_index(x, y, z) < CHUNK_VOLUME,
{
}

pub proof fn lemma_index_injective(x1: int, y1: int, z1: int, x2: int, y2: int, z2: int)
    requires
        in_chunk(x1, y1, z1),
        in_chunk(x2, y2, z2),
        block_index(x1, y1, z1) == block_index(x2, y2, z2),
    ensures
        x1 == x2 && y1 == y2 && z1 == z2,
{
}


/// Every block from this position up to the top of the chunk lets light
/// through: the position sees the sky.
pub open spec fn sky_exposed(s: Seq<Block>, x: int, y: int, z: int) -> bool {
    &&& in_chunk(x, y, z)
    &&& forall|y2: int|
        y <= y2 < CHUNK_HEIGHT ==> type_is_transparent(#[trigger] cell(s, x, y2, z).block_type)
}

/// Light of level `level` next to the position (nx, ny, nz) is passed on:
/// if that position lets light through, it is at least `level - 1`.
pub open spec fn reaches(s: Seq<Block>, level: int, nx: int, ny: int, nz: int) -> bool {
    transparent_at(s, nx, ny, nz) ==> light(s, nx, ny, nz) >= level - 1
}

/// The light at a position has reached all six neighbours.
pub open spec fn spreads_from(s: Seq<Block>, x: int, y: int, z: int) -> bool {
    let l = light(s, x, y, z);
    &&& reaches(s, l, x - 1, y, z)
    &&& reaches(s, l, x + 1, y, z)
    &&& reaches(s, l, x, y - 1, z)
    &&& reaches(s, l, x, y + 1, z)
    &&& reaches(s, l, x, y, z - 1)
    &&& reaches(s, l, x, y, z + 1)
}

/// The position (nx, ny, nz) lets light through and is at least one level
/// brighter than `level`.
pub open spec fn brighter(s: Seq<Block>, level: int, nx: int, ny: int, nz: int) -> bool {
    transparent_at(s, nx, ny, nz) && light(s, nx, ny, nz) >= level + 1
}

/// Some neighbour is brighter than the position.
pub open spec fn lit_by_neighbour(s: Seq<Block>, x: int, y: int, z: int) -> bool {
    let l = light(s, x, y, z);
    ||| brighter(s, l, x - 1, y, z)
    ||| brighter(s, l, x + 1, y, z)
    ||| brighter(s, l, x, y - 1, z)
    ||| brighter(s, l, x, y + 1, z)
    ||| brighter(s, l, x, y, z - 1)
    ||| brighter(s, l, x, y, z + 1)
}

/// The position (nx, ny, nz) lets light through and is exactly one level
/// brighter than `level`.
pub open spec fn one_brighter(s: Seq<Block>, level: int, nx: int, ny: int, nz: int) -> bool {
    transparent_at(s, nx, ny, nz) && light(s, nx, ny, nz) == level + 1
}

/// Some neighbour is exactly one level brighter than the position.
pub open spec fn fed_by_neighbour(s: Seq<Block>, x: int, y: int, z: int) -> bool {
    let l = light(s, x, y, z);
    ||| one_brighter(s, l, x - 1, y, z)
    ||| one_brighter(s, l, x + 1, y, z)
    ||| one_brighter(s, l, x, y - 1, z)
    ||| one_brighter(s, l, x, y + 1, z)
    ||| one_brighter(s, l, x, y, z - 1)
    ||| one_brighter(s, l, x, y, z + 1)
}

/// The sky light at one position agrees with its surroundings: blocks that
/// see the sky and let light through are fully lit, opaque blocks are dark,
/// light loses one level per step through transparent blocks and never
/// appears without a brighter neighbour.
pub open spec fn settled_at(s: Seq<Block>, x: int, y: int, z: int) -> bool {
    &&& light(s, x, y, z) <= MAX_LIGHT
    &&& !transparent_at(s, x, y, z) ==> light(s, x, y, z) == 0
    &&& transparent_at(s, x, y, z) && sky_exposed(s, x, y, z) ==> light(s, x, y, z) == MAX_LIGHT
    &&& transparent_at(s, x, y, z) ==> spreads_from(s, x, y, z)
    &&& transparent_at(s, x, y, z) && !sky_exposed(s, x, y, z) && light(s, x, y, z) > 0
        ==> fed_by_neighbour(s, x, y, z)
}

/// The sky light of a whole chunk is settled.
pub open spec fn sky_light_settled(s: Seq<Block>) -> bool {
    forall|x: int, y: int, z: int| in_chunk(x, y, z) ==> #[trigger] settled_at(s, x, y, z)
}

/// A queued position lies in the chunk and lets light through.
pub open spec fn queued_ok(s: Seq<Block>, p: (usize, usize, usize)) -> bool {
    transparent_at(s, p.0 as int, p.1 as int, p.2 as int)
}

pub open spec fn queued(q: Seq<(usize, usize, usize)>, x: int, y: int, z: int) -> bool {
    exists|j: int| 0 <= j < q.len() && #[trigger] q[j] == (x as usize, y as usize, z as usize)
}

/// What the flood fill keeps true of each position: as `settled_at`, except
/// that a position still waiting in the queue (or being worked on, `cur`)
/// need not have passed on its light, and a lit position only needs some
/// brighter neighbour.
pub open spec fn flood_at(
    s: Seq<Block>,
    q: Seq<(usize, usize, usize)>,
    cur: (int, int, int),
    x: int,
    y: int,
    z: int,
) -> bool {
    &&& light(s, x, y, z) <= MAX_LIGHT
    &&& !transparent_at(s, x, y, z) ==> light(s, x, y, z) == 0
    &&& transparent_at(s, x, y, z) && sky_exposed(s, x, y, z) ==> light(s, x, y, z) == MAX_LIGHT
    &&& transparent_at(s, x, y, z) ==> (spreads_from(s, x, y, z) || queued(q, x, y, z) || (x, y, z)
        == cur)
    &&& transparent_at(s, x, y, z) && !sky_exposed(s, x, y, z) && light(s, x, y, z) > 0
        ==> lit_by_neighbour(s, x, y, z)
}

pub open spec fn flood_inv(
    base: Seq<Block>,
    s: Seq<Block>,
    q: Seq<(usize, usize, usize)>,
    cur: (int, int, int),
) -> bool {
    &&& s.len() == CHUNK_VOLUME
    &&& same_but_sky(base, s)
    &&& forall|x: int, y: int, z: int| in_chunk(x, y, z) ==> #[trigger] flood_at(s, q, cur, x, y, z)
    &&& forall|j: int| 0 <= j < q.len() ==> #[trigger] queued_ok(s, q[j])
}


/// The order in which columns are seeded.
pub open spec fn column_order(x: int, z: int) -> int {
    x * 16 + z
}

/// After the top-down pass: a position is fully lit and queued exactly when
/// it sees the sky.
pub open spec fn seeded_at(s: Seq<Block>, q: Seq<(usize, usize, usize)>, x: int, y: int, z: int) -> bool {
    &&& light(s, x, y, z) == (if sky_exposed(s, x, y, z) { MAX_LIGHT as int } else { 0 })
    &&& sky_exposed(s, x, y, z) ==> queued(q, x, y, z)
}

/// The columns before `done` are seeded; the rest are still dark.
pub open spec fn seed_inv(
    base: Seq<Block>,
    s: Seq<Block>,
    q: Seq<(usize, usize, usize)>,
    done: int,
) -> bool {
    &&& s.len() == CHUNK_VOLUME
    &&& same_but_sky(base, s)
    &&& forall|x: int, y: int, z: int| in_chunk(x, y, z) ==> #[trigger] seed_at(s, q, done, x, y, z)
    &&& forall|j: int| 0 <= j < q.len() ==> #[trigger] queued_ok(s, q[j])
}

pub open spec fn seed_at(s: Seq<Block>, q: Seq<(usize, usize, usize)>, done: int, x: int, y: int, z: int) -> bool {
    &&& column_order(x, z) < done ==> seeded_at(s, q, x, y, z)
    &&& column_order(x, z) >= done ==> light(s, x, y, z) == 0
}

/// How far the chunk is from being fully lit; shrinks whenever a light rises.
pub open spec fn darkness(s: Seq<Block>) -> nat
    decreases s.len(),
{
    if s.len() == 0 {
        0
    } else {
        darkness(s.drop_last()) + dark_of(s.last())
    }
}

pub open spec fn dark_of(b: Block) -> nat {
    if b.sky_light <= MAX_LIGHT {
        (MAX_LIGHT - b.sky_light) as nat
    } else {
        0
    }
}

pub proof fn lemma_darkness_update(s: Seq<Block>, i: int, b: Block)
    requires
        0 <= i < s.len(),
    ensures
        darkness(s.update(i, b)) + dark_of(s[i]) == darkness(s) + dark_of(b),
    decreases s.len(),
{
    if i == s.len() - 1 {
        assert(s.update(i, b).drop_last() =~= s.drop_last());
    } else {
        lemma_darkness_update(s.drop_last(), i, b);
        assert(s.update(i, b).drop_last() =~= s.drop_last().update(i, b));
    }
}



/// The two positions share a face.
pub open spec fn adjacent(p: (int, int, int), n: (int, int, int)) -> bool {
    ||| n == (p.0 - 1, p.1, p.2)
    ||| n == (p.0 + 1, p.1, p.2)
    ||| n == (p.0, p.1 - 1, p.2)
    ||| n == (p.0, p.1 + 1, p.2)
    ||| n == (p.0, p.1, p.2 - 1)
    ||| n == (p.0, p.1, p.2 + 1)
}

pub open spec fn same_types(s: Seq<Block>, s2: Seq<Block>) -> bool {
    forall|x: int, y: int, z: int|
        in_chunk(x, y, z) ==> (#[trigger] cell(s2, x, y, z)).block_type == cell(s, x, y, z).block_type
}

pub proof fn lemma_exposed_same(s: Seq<Block>, s2: Seq<Block>, x: int, y: int, z: int)
    requires
        same_types(s, s2),
    ensures
        sky_exposed(s2, x, y, z) == sky_exposed(s, x, y, z),
{
    if in_chunk(x, y, z) {
        assert forall|y2: int| y <= y2 < CHUNK_HEIGHT implies cell(s2, x, y2, z).block_type == cell(s, x, y2, z).block_type by {
            assert(in_chunk(x, y2, z));
        }
        if sky_exposed(s, x, y, z) {
            assert forall|y2: int| y <= y2 < CHUNK_HEIGHT implies type_is_transparent(#[trigger] cell(s2, x, y2, z).block_type) by {
                assert(in_chunk(x, y2, z));
                assert(type_is_transparent(cell(s, x, y2, z).block_type));
            }
        }
        if sky_exposed(s2, x, y, z) {
            assert forall|y2: int| y <= y2 < CHUNK_HEIGHT implies type_is_transparent(#[trigger] cell(s, x, y2, z).block_type) by {
                assert(in_chunk(x, y2, z));
                assert(type_is_transparent(cell(s2, x, y2, z).block_type));
            }
        }
    }
}

/// Lights only rose from `s` to `s2`, and no block changed its type.
pub open spec fn grows(s: Seq<Block>, s2: Seq<Block>) -> bool {
    forall|x: int, y: int, z: int|
        in_chunk(x, y, z) ==> {
            &&& (#[trigger] cell(s2, x, y, z)).block_type == cell(s, x, y, z).block_type
            &&& light(s2, x, y, z) >= light(s, x, y, z)
        }
}

pub proof fn lemma_grows_at(s: Seq<Block>, s2: Seq<Block>, x: int, y: int, z: int)
    requires
        grows(s, s2),
        in_chunk(x, y, z),
        light(s2, x, y, z) == light(s, x, y, z),
    ensures
        transparent_at(s2, x, y, z) == transparent_at(s, x, y, z),
        sky_exposed(s2, x, y, z) == sky_exposed(s, x, y, z),
        spreads_from(s, x, y, z) ==> spreads_from(s2, x, y, z),
        lit_by_neighbour(s, x, y, z) ==> lit_by_neighbour(s2, x, y, z),
{
    assert(same_types(s, s2));
    lemma_exposed_same(s, s2, x, y, z);
    assert(cell(s2, x, y, z).block_type == cell(s, x, y, z).block_type);
    assert(in_chunk(x - 1, y, z) ==> cell(s2, x - 1, y, z).block_type == cell(s, x - 1, y, z).block_type);
    assert(in_chunk(x + 1, y, z) ==> cell(s2, x + 1, y, z).block_type == cell(s, x + 1, y, z).block_type);
    assert(in_chunk(x, y - 1, z) ==> cell(s2, x, y - 1, z).block_type == cell(s, x, y - 1, z).block_type);
    assert(in_chunk(x, y + 1, z) ==> cell(s2, x, y + 1, z).block_type == cell(s, x, y + 1, z).block_type);
    assert(in_chunk(x, y, z - 1) ==> cell(s2, x, y, z - 1).block_type == cell(s, x, y, z - 1).block_type);
    assert(in_chunk(x, y, z + 1) ==> cell(s2, x, y, z + 1).block_type == cell(s, x, y, z + 1).block_type);
}

pub proof fn lemma_spread_step(
    base: Seq<Block>,
    s: Seq<Block>,
    q: Seq<(usize, usize, usize)>,
    p: (int, int, int),
    n: (int, int, int),
    level: int,
)
    requires
        flood_inv(base, s, q, p),
        transparent_at(s, p.0, p.1, p.2),
        transparent_at(s, n.0, n.1, n.2),
        adjacent(p, n),
        0 <= level,
        level == light(s, p.0, p.1, p.2) - 1,
        light(s, n.0, n.1, n.2) < level,
    ensures
        ({
            let i = block_index(n.0, n.1, n.2);
            let s2 = s.update(i, Block { sky_light: level as u8, ..s[i] });
            let q2 = q.push((n.0 as usize, n.1 as usize, n.2 as usize));
            &&& flood_inv(base, s2, q2, p)
            &&& grows(s, s2)
            &&& light(s2, p.0, p.1, p.2) == light(s, p.0, p.1, p.2)
        }),
{
    let i = block_index(n.0, n.1, n.2);
    let s2 = s.update(i, Block { sky_light: level as u8, ..s[i] });
    let q2 = q.push((n.0 as usize, n.1 as usize, n.2 as usize));
    lemma_index_bounds(n.0, n.1, n.2);
    assert(flood_at(s, q, p, p.0, p.1, p.2));
    assert forall|x: int, y: int, z: int| in_chunk(x, y, z) implies {
        &&& (#[trigger] cell(s2, x, y, z)).block_type == cell(s, x, y, z).block_type
        &&& light(s2, x, y, z) >= light(s, x, y, z)
        &&& ((x, y, z) != n ==> cell(s2, x, y, z) == cell(s, x, y, z))
    } by {
        lemma_index_bounds(x, y, z);
        if block_index(x, y, z) == i {
            lemma_index_injective(x, y, z, n.0, n.1, n.2);
        }
    }
    assert(grows(s, s2));
    assert forall|x: int, y: int, z: int| in_chunk(x, y, z) implies #[trigger] flood_at(
        s2,
        q2,
        p,
        x,
        y,
        z,
    ) by {
        lemma_spread_at(s, s2, q, q2, p, n, level, x, y, z);
    }
    assert forall|j: int| 0 <= j < q2.len() implies #[trigger] queued_ok(s2, q2[j]) by {
        if j < q.len() {
            assert(queued_ok(s, q[j]));
            let e = q[j];
            assert(cell(s2, e.0 as int, e.1 as int, e.2 as int).block_type == cell(s, e.0 as int, e.1 as int, e.2 as int).block_type);
        }
    }
    assert(same_but_sky(base, s2)) by {
        assert forall|k: int| 0 <= k < base.len() implies {
            &&& (#[trigger] base[k]).block_type == s2[k].block_type
            &&& base[k].tree_id == s2[k].tree_id
            &&& base[k].block_light == s2[k].block_light
        } by {
            assert(base[k].block_type == s[k].block_type);
        }
    }
}

proof fn lemma_spread_at(
    s: Seq<Block>,
    s2: Seq<Block>,
    q: Seq<(usize, usize, usize)>,
    q2: Seq<(usize, usize, usize)>,
    p: (int, int, int),
    n: (int, int, int),
    level: int,
    x: int,
    y: int,
    z: int,
)
    requires
        in_chunk(x, y, z),
        flood_at(s, q, p, x, y, z),
        flood_at(s, q, p, p.0, p.1, p.2),
        grows(s, s2),
        transparent_at(s, p.0, p.1, p.2),
        transparent_at(s, n.0, n.1, n.2),
        adjacent(p, n),
        0 <= level,
        level == light(s, p.0, p.1, p.2) - 1,
        light(s2, n.0, n.1, n.2) == level,
        forall|a: int, b: int, c: int|
            in_chunk(a, b, c) && (a, b, c) != n ==> light(s2, a, b, c) == light(s, a, b, c),
        q2 == q.push((n.0 as usize, n.1 as usize, n.2 as usize)),
    ensures
        flood_at(s2, q2, p, x, y, z),
{
    assert(q2[q.len() as int] == (n.0 as usize, n.1 as usize, n.2 as usize));
    if (x, y, z) == n {
        assert(queued(q2, x, y, z));
        assert(light(s2, p.0, p.1, p.2) == light(s, p.0, p.1, p.2));
        assert(cell(s2, p.0, p.1, p.2).block_type == cell(s, p.0, p.1, p.2).block_type);
        assert(brighter(s2, level, p.0, p.1, p.2));
        assert(cell(s2, x, y, z).block_type == cell(s, x, y, z).block_type);
        assert(same_types(s, s2));
        lemma_exposed_same(s, s2, x, y, z);
    } else {
        lemma_grows_at(s, s2, x, y, z);
        if queued(q, x, y, z) {
            let j = choose|j: int|
                0 <= j < q.len() && #[trigger] q[j] == (x as usize, y as usize, z as usize);
            assert(q2[j] == q[j]);
        }
    }
}


proof fn lemma_seed_column_done(
    base: Seq<Block>,
    s0: Seq<Block>,
    q0: Seq<(usize, usize, usize)>,
    s: Seq<Block>,
    q: Seq<(usize, usize, usize)>,
    x: int,
    z: int,
    y: int,
)
    requires
        0 <= x < CHUNK_WIDTH,
        0 <= z < CHUNK_DEPTH,
        0 <= y <= CHUNK_HEIGHT,
        s.len() == CHUNK_VOLUME,
        same_but_sky(base, s),
        seed_inv(base, s0, q0, column_order(x, z)),
        forall|j: int| 0 <= j < q.len() ==> #[trigger] queued_ok(s, q[j]),
        forall|j: int| 0 <= j < q0.len() ==> #[trigger] q[j] == q0[j],
        q0.len() <= q.len(),
        forall|a: int, b: int, c: int|
            in_chunk(a, b, c) && (a != x || c != z) ==> #[trigger] cell(s, a, b, c) == cell(s0, a, b, c),
        forall|b: int|
            0 <= b < CHUNK_HEIGHT ==> {
                &&& b >= y ==> transparent_at(s, x, b, z) && light(s, x, b, z) == MAX_LIGHT && queued(q, x, b, z)
                &&& b < y ==> light(s, x, b, z) == 0
                &&& (#[trigger] cell(s, x, b, z)).block_type == cell(s0, x, b, z).block_type
            },
        y > 0 ==> !transparent_at(s, x, y - 1, z),
    ensures
        seed_inv(base, s, q, column_order(x, z) + 1),
{
    assert(same_types(s0, s)) by {
        assert forall|a: int, b: int, c: int| in_chunk(a, b, c) implies (#[trigger] cell(s, a, b, c)).block_type == cell(s0, a, b, c).block_type by {
            if a == x && c == z {
                assert(cell(s, x, b, z).block_type == cell(s0, x, b, z).block_type);
            } else {
                assert(cell(s, a, b, c) == cell(s0, a, b, c));
            }
        }
    }
    assert forall|a: int, b: int, c: int| in_chunk(a, b, c) implies #[trigger] seed_at(s, q, column_order(x, z) + 1, a, b, c) by {
        assert(seed_at(s0, q0, column_order(x, z), a, b, c));
        lemma_exposed_same(s0, s, a, b, c);
        if a == x && c == z {
            if b >= y {
                assert forall|y2: int| b <= y2 < CHUNK_HEIGHT implies type_is_transparent(#[trigger] cell(s, a, y2, c).block_type) by {
                    assert(transparent_at(s, x, y2, z));
                }
                assert(sky_exposed(s, a, b, c));
            } else {
                assert(!type_is_transparent(cell(s, a, y - 1, c).block_type));
                assert(!sky_exposed(s, a, b, c));
            }
        } else {
            assert(cell(s, a, b, c) == cell(s0, a, b, c));
            if column_order(a, c) < column_order(x, z) {
                assert(seeded_at(s0, q0, a, b, c));
                if sky_exposed(s0, a, b, c) {
                    let j = choose|j: int|
                        0 <= j < q0.len() && #[trigger] q0[j] == (a as usize, b as usize, c as usize);
                    assert(q[j] == q0[j]);
                }
            } else {
                assert(light(s0, a, b, c) == 0);
            }
        }
    }
}


/// A position outside every chunk: "no position is being worked on".
pub open spec fn nowhere() -> (int, int, int) {
    (-1, -1, -1)
}

proof fn lemma_seed_to_flood(base: Seq<Block>, s: Seq<Block>, q: Seq<(usize, usize, usize)>)
    requires
        seed_inv(base, s, q, 256),
    ensures
        flood_inv(base, s, q, nowhere()),
{
    assert forall|x: int, y: int, z: int| in_chunk(x, y, z) implies #[trigger] flood_at(s, q, nowhere(), x, y, z) by {
        assert(seed_at(s, q, 256, x, y, z));
        if !sky_exposed(s, x, y, z) {
            assert(light(s, x, y, z) == 0);
        }
        if !transparent_at(s, x, y, z) {
            assert(!type_is_transparent(cell(s, x, y, z).block_type));
            assert(!sky_exposed(s, x, y, z));
        }
    }
}

proof fn lemma_pop(base: Seq<Block>, s: Seq<Block>, q: Seq<(usize, usize, usize)>)
    requires
        flood_inv(base, s, q, nowhere()),
        q.len() > 0,
    ensures
        ({
            let p = (q[0].0 as int, q[0].1 as int, q[0].2 as int);
            &&& flood_inv(base, s, q.drop_first(), p)
            &&& transparent_at(s, p.0, p.1, p.2)
        }),
{
    let p = (q[0].0 as int, q[0].1 as int, q[0].2 as int);
    let q1 = q.drop_first();
    assert(queued_ok(s, q[0]));
    assert forall|x: int, y: int, z: int| in_chunk(x, y, z) implies #[trigger] flood_at(s, q1, p, x, y, z) by {
        assert(flood_at(s, q, nowhere(), x, y, z));
        if queued(q, x, y, z) && (x, y, z) != p {
            let j = choose|j: int| 0 <= j < q.len() && #[trigger] q[j] == (x as usize, y as usize, z as usize);
            assert(j != 0);
            assert(q1[j - 1] == q[j]);
        }
    }
    assert forall|j: int| 0 <= j < q1.len() implies #[trigger] queued_ok(s, q1[j]) by {
        assert(queued_ok(s, q[j + 1]));
    }
}

proof fn lemma_release(base: Seq<Block>, s: Seq<Block>, q: Seq<(usize, usize, usize)>, p: (int, int, int))
    requires
        flood_inv(base, s, q, p),
        spreads_from(s, p.0, p.1, p.2),
    ensures
        flood_inv(base, s, q, nowhere()),
{
    assert forall|x: int, y: int, z: int| in_chunk(x, y, z) implies #[trigger] flood_at(s, q, nowhere(), x, y, z) by {
        assert(flood_at(s, q, p, x, y, z));
    }
}

pub proof fn lemma_reaches_grows(s: Seq<Block>, s2: Seq<Block>, level: int, x: int, y: int, z: int)
    requires
        grows(s, s2),
        reaches(s, level, x, y, z),
    ensures
        reaches(s2, level, x, y, z),
{
    if in_chunk(x, y, z) {
        assert(cell(s2, x, y, z).block_type == cell(s, x, y, z).block_type);
    }
}

pub proof fn lemma_grows_trans(s1: Seq<Block>, s2: Seq<Block>, s3: Seq<Block>)
    requires
        grows(s1, s2),
        grows(s2, s3),
    ensures
        grows(s1, s3),
{
    assert forall|x: int, y: int, z: int| in_chunk(x, y, z) implies {
        &&& (#[trigger] cell(s3, x, y, z)).block_type == cell(s1, x, y, z).block_type
        &&& light(s3, x, y, z) >= light(s1, x, y, z)
    } by {
        assert(cell(s2, x, y, z).block_type == cell(s1, x, y, z).block_type);
    }
}

proof fn lemma_settled(base: Seq<Block>, s: Seq<Block>, q: Seq<(usize, usize, usize)>)
    requires
        flood_inv(base, s, q, nowhere()),
        q.len() == 0,
    ensures
        sky_light_settled(s),
{
    assert forall|x: int, y: int, z: int| in_chunk(x, y, z) implies #[trigger] settled_at(s, x, y, z) by {
        assert(flood_at(s, q, nowhere(), x, y, z));
        if transparent_at(s, x, y, z) && !sky_exposed(s, x, y, z) && light(s, x, y, z) > 0 {
            let l = light(s, x, y, z);
            if brighter(s, l, x - 1, y, z) {
                assert(flood_at(s, q, nowhere(), x - 1, y, z));
                assert(one_brighter(s, l, x - 1, y, z));
            } else if brighter(s, l, x + 1, y, z) {
                assert(flood_at(s, q, nowhere(), x + 1, y, z));
                assert(one_brighter(s, l, x + 1, y, z));
            } else if brighter(s, l, x, y - 1, z) {
                assert(flood_at(s, q, nowhere(), x, y - 1, z));
                assert(one_brighter(s, l, x, y - 1, z));
            } else if brighter(s, l, x, y + 1, z) {
                assert(flood_at(s, q, nowhere(), x, y + 1, z));
                assert(one_brighter(s, l, x, y + 1, z));
            } else if brighter(s, l, x, y, z - 1) {
                assert(flood_at(s, q, nowhere(), x, y, z - 1));
                assert(one_brighter(s, l, x, y, z - 1));
            } else {
                assert(flood_at(s, q, nowhere(), x, y, z + 1));
                assert(one_brighter(s, l, x, y, z + 1));
            }
        }
    }
}


proof fn lemma_settled_at_least(s1: Seq<Block>, s2: Seq<Block>, k: int)
    requires
        same_types(s1, s2),
        sky_light_settled(s1),
        sky_light_settled(s2),
        0 <= k <= 16,
    ensures
        forall|x: int, y: int, z: int|
            in_chunk(x, y, z) && light(s1, x, y, z) >= k ==> #[trigger] light(s2, x, y, z) >= k,
    decreases 16 - k,
{
    if k < 16 {
        lemma_settled_at_least(s1, s2, k + 1);
        assert forall|x: int, y: int, z: int|
            in_chunk(x, y, z) && light(s1, x, y, z) >= k implies #[trigger] light(s2, x, y, z) >= k by {
            assert(settled_at(s1, x, y, z));
            assert(settled_at(s2, x, y, z));
            lemma_exposed_same(s1, s2, x, y, z);
            assert(cell(s2, x, y, z).block_type == cell(s1, x, y, z).block_type);
            if light(s1, x, y, z) == k && k > 0 && !sky_exposed(s1, x, y, z) {
                if one_brighter(s1, k, x - 1, y, z) {
                    assert(settled_at(s2, x - 1, y, z));
                    assert(cell(s2, x - 1, y, z).block_type == cell(s1, x - 1, y, z).block_type);
                } else if one_brighter(s1, k, x + 1, y, z) {
                    assert(settled_at(s2, x + 1, y, z));
                    assert(cell(s2, x + 1, y, z).block_type == cell(s1, x + 1, y, z).block_type);
                } else if one_brighter(s1, k, x, y - 1, z) {
                    assert(settled_at(s2, x, y - 1, z));
                    assert(cell(s2, x, y - 1, z).block_type == cell(s1, x, y - 1, z).block_type);
                } else if one_brighter(s1, k, x, y + 1, z) {
                    assert(settled_at(s2, x, y + 1, z));
                    assert(cell(s2, x, y + 1, z).block_type == cell(s1, x, y + 1, z).block_type);
                } else if one_brighter(s1, k, x, y, z - 1) {
                    assert(settled_at(s2, x, y, z - 1));
                    assert(cell(s2, x, y, z - 1).block_type == cell(s1, x, y, z - 1).block_type);
                } else {
                    assert(one_brighter(s1, k, x, y, z + 1));
                    assert(settled_at(s2, x, y, z + 1));
                    assert(cell(s2, x, y, z + 1).block_type == cell(s1, x, y, z + 1).block_type);
                }
            }
        }
    } else {
        assert forall|x: int, y: int, z: int|
            in_chunk(x, y, z) && light(s1, x, y, z) >= k implies #[trigger] light(s2, x, y, z) >= k by {
            assert(settled_at(s1, x, y, z));
        }
    }
}

/// `pocket` is a set of positions that let light through, none of which
/// sees the sky, and which is closed off: every transparent neighbour of a
/// position in it is in it too.
pub open spec fn closed_pocket(s: Seq<Block>, pocket: spec_fn(int, int, int) -> bool) -> bool {
    &&& forall|x: int, y: int, z: int|
        #[trigger] pocket(x, y, z) ==> transparent_at(s, x, y, z) && !sky_exposed(s, x, y, z)
    &&& forall|x: int, y: int, z: int, x2: int, y2: int, z2: int|
        #[trigger] pocket(x, y, z) && adjacent((x, y, z), (x2, y2, z2)) && #[trigger] transparent_at(
            s,
            x2,
            y2,
            z2,
        ) ==> pocket(x2, y2, z2)
}

proof fn lemma_pocket_below(s: Seq<Block>, pocket: spec_fn(int, int, int) -> bool, x: int, y: int, z: int, m: int)
    requires
        sky_light_settled(s),
        closed_pocket(s, pocket),
        pocket(x, y, z),
        1 <= m <= 16,
    ensures
        light(s, x, y, z) < m,
    decreases 16 - m,
{
    assert(transparent_at(s, x, y, z));
    assert(settled_at(s, x, y, z));
    let l = light(s, x, y, z);
    if m < 16 && l >= m {
        assert(fed_by_neighbour(s, x, y, z));
        let n = if one_brighter(s, l, x - 1, y, z) {
            (x - 1, y, z)
        } else if one_brighter(s, l, x + 1, y, z) {
            (x + 1, y, z)
        } else if one_brighter(s, l, x, y - 1, z) {
            (x, y - 1, z)
        } else if one_brighter(s, l, x, y + 1, z) {
            (x, y + 1, z)
        } else if one_brighter(s, l, x, y, z - 1) {
            (x, y, z - 1)
        } else {
            (x, y, z + 1)
        };
        assert(one_brighter(s, l, n.0, n.1, n.2));
        assert(adjacent((x, y, z), n));
        assert(transparent_at(s, n.0, n.1, n.2));
        assert(pocket(n.0, n.1, n.2));
        lemma_pocket_below(s, pocket, n.0, n.1, n.2, m + 1);
    }
}

/// In a chunk whose sky light is settled, a pocket of transparent blocks
/// that is closed off by opaque blocks and in which no block sees the sky
/// (a cave) is completely dark.
pub proof fn law_closed_pocket_is_dark(s: Seq<Block>, pocket: spec_fn(int, int, int) -> bool, x: int, y: int, z: int)
    requires
        sky_light_settled(s),
        closed_pocket(s, pocket),
        pocket(x, y, z),
    ensures
        light(s, x, y, z) == 0,
{
    lemma_pocket_below(s, pocket, x, y, z, 1);
}

/// Once sky light is settled, a transparent block that sees the sky has
/// full sky light.
pub proof fn law_open_sky_is_full(s: Seq<Block>, x: int, y: int, z: int)
    requires
        sky_light_settled(s),
        transparent_at(s, x, y, z),
        sky_exposed(s, x, y, z),
    ensures
        light(s, x, y, z) == MAX_LIGHT,
{
    assert(settled_at(s, x, y, z));
}

/// Once sky light is settled, light loses at most one level from a
/// transparent block to a transparent neighbour.
pub proof fn law_light_fades_by_one(s: Seq<Block>, p: (int, int, int), n: (int, int, int))
    requires
        sky_light_settled(s),
        transparent_at(s, p.0, p.1, p.2),
        transparent_at(s, n.0, n.1, n.2),
        adjacent(p, n),
    ensures
        light(s, n.0, n.1, n.2) >= light(s, p.0, p.1, p.2) - 1,
{
    assert(settled_at(s, p.0, p.1, p.2));
}

/// Settled sky light is a function of the blocks alone: two chunks with the
/// same block types whose sky light is settled have the same sky light
/// everywhere.  So `calculate_sky_light` gives the one consistent lighting.
pub proof fn lemma_sky_light_unique(s1: Seq<Block>, s2: Seq<Block>)
    requires
        same_types(s1, s2),
        sky_light_settled(s1),
        sky_light_settled(s2),
    ensures
        forall|x: int, y: int, z: int|
            in_chunk(x, y, z) ==> #[trigger] light(s1, x, y, z) == light(s2, x, y, z),
{
    assert forall|x: int, y: int, z: int| in_chunk(x, y, z) implies (#[trigger] cell(s1, x, y, z)).block_type
        == cell(s2, x, y, z).block_type by {
        assert(cell(s2, x, y, z).block_type == cell(s1, x, y, z).block_type);
    }
    lemma_settled_at_least(s1, s2, 0);
    lemma_settled_at_least(s2, s1, 0);
    assert forall|x: int, y: int, z: int| in_chunk(x, y, z) implies #[trigger] light(s1, x, y, z) == light(s2, x, y, z) by {
        lemma_settled_at_least_at(s1, s2, light(s1, x, y, z), x, y, z);
        lemma_settled_at_least_at(s2, s1, light(s2, x, y, z), x, y, z);
    }
}

proof fn lemma_settled_at_least_at(s1: Seq<Block>, s2: Seq<Block>, k: int, x: int, y: int, z: int)
    requires
        same_types(s1, s2),
        sky_light_settled(s1),
        sky_light_settled(s2),
        in_chunk(x, y, z),
        k == light(s1, x, y, z),
    ensures
        light(s2, x, y, z) >= k,
{
    assert(settled_at(s1, x, y, z));
    lemma_settled_at_least(s1, s2, k);
}


/// The height of the grass surface of generated terrain.
pub const SURFACE_LEVEL: usize = 16;

/// The block type of generated terrain at height `y`, up to the surface.
pub open spec fn terrain_type(y: int) -> BlockType {
    if y == 0 {
        BlockType::Bedrock
    } else if y < SURFACE_LEVEL {
        BlockType::Dirt
    } else {
        BlockType::Grass
    }
}

/// What tree planting may do to a block: keep it, put a trunk log there, or
/// fill air with leaves of some tree.
pub open spec fn grown_from(old: Block, new: Block) -> bool {
    ||| new == old
    ||| new == fresh_block(BlockType::OakLog)
    ||| (old.block_type == BlockType::Air && new.block_type == BlockType::OakLeaves && new.tree_id
        is Some && new.sky_light == 0 && new.block_light == 0)
}

/// Every block of `s2` was grown from the block at the same place in `s1`,
/// and nothing below height `y_min` changed.
pub open spec fn grown_above(s1: Seq<Block>, s2: Seq<Block>, y_min: int) -> bool {
    &&& s2.len() == s1.len()
    &&& forall|x: int, y: int, z: int|
        in_chunk(x, y, z) ==> {
            &&& grown_from(cell(s1, x, y, z), #[trigger] cell(s2, x, y, z))
            &&& y < y_min ==> cell(s2, x, y, z) == cell(s1, x, y, z)
        }
}

pub proof fn lemma_grown_trans(s1: Seq<Block>, s2: Seq<Block>, s3: Seq<Block>, y_min: int)
    requires
        grown_above(s1, s2, y_min),
        grown_above(s2, s3, y_min),
    ensures
        grown_above(s1, s3, y_min),
{
    assert forall|x: int, y: int, z: int| in_chunk(x, y, z) implies {
        &&& grown_from(cell(s1, x, y, z), #[trigger] cell(s3, x, y, z))
        &&& y < y_min ==> cell(s3, x, y, z) == cell(s1, x, y, z)
    } by {
        assert(grown_from(cell(s1, x, y, z), cell(s2, x, y, z)));
    }
}


/// The terrain pass has filled the columns before `done`: up to the surface
/// they hold terrain, above it what was there; later columns are untouched.
pub open spec fn base_filled(s0: Seq<Block>, s: Seq<Block>, done: int, x: int, y: int, z: int) -> bool {
    if column_order(x, z) < done && y <= SURFACE_LEVEL {
        cell(s, x, y, z) == fresh_block(terrain_type(y))
    } else {
        cell(s, x, y, z) == cell(s0, x, y, z)
    }
}


proof fn lemma_small_square(v: int)
    requires
        -3 <= v <= 3,
    ensures
        0 <= v * v <= 9,
{
    assert(0 <= v * v <= 9) by (nonlinear_arith)
        requires
            -3 <= v <= 3,
    ;
}

/// Whether local position (a, b, c) is in the trunk of the oak at column
/// (x, z) whose `h` logs start at height `y_base`.
pub open spec fn in_trunk(x: int, y_base: int, z: int, h: int, a: int, b: int, c: int) -> bool {
    a == x && c == z && y_base <= b < y_base + h
}

/// The canopy's radius at height `b`: two within one block of the canopy's
/// centre height, one further up or down.
pub open spec fn canopy_radius_at(center: int, b: int) -> int {
    if -1 <= b - center <= 1 {
        2
    } else {
        1
    }
}

/// A horizontal offset that lies within radius `r` of the column.
pub open spec fn within_radius(dx: int, dz: int, r: int) -> bool {
    dx * dx + dz * dz <= r * r
}

/// Whether local position (a, b, c) lies in the canopy of the oak at
/// column (x, z) with `h` logs from height `y_base`: from two below the top
/// log to two above it, within the layer's radius, and not in the column
/// below the top log.
pub open spec fn in_canopy(x: int, y_base: int, z: int, h: int, a: int, b: int, c: int) -> bool {
    let center = y_base + h - 1;
    &&& y_base + h - 2 <= b <= y_base + h + 1
    &&& within_radius(a - x, c - z, canopy_radius_at(center, b))
    &&& !(a == x && c == z && b < center)
}

/// A leaf of the tree `tree_id`.
pub open spec fn leaf_of(tree_id: u32) -> Block {
    Block { block_type: BlockType::OakLeaves, tree_id: Some(tree_id), sky_light: 0, block_light: 0 }
}

/// The first `k` trunk positions of the oak at column (x, z) from height
/// `y_base` hold logs.
pub open spec fn trunk_logs(s: Seq<Block>, x: int, y_base: int, z: int, k: int) -> bool {
    forall|j: int| 0 <= j < k ==> #[trigger] cell(s, x, y_base + j, z) == fresh_block(BlockType::OakLog)
}

/// Outside the trunk, every block of `s2` is the block of `s1`, or, inside
/// the canopy where `s1` holds air, a leaf of tree `tree_id`.
pub open spec fn outside_trunk_kept(
    s1: Seq<Block>,
    s2: Seq<Block>,
    x: int,
    y_base: int,
    z: int,
    tree_id: u32,
    h: int,
) -> bool {
    forall|a: int, b: int, c: int|
        in_chunk(a, b, c) && !in_trunk(x, y_base, z, h, a, b, c) ==> #[trigger] cell(s2, a, b, c) == cell(
            s1,
            a,
            b,
            c,
        ) || (in_canopy(x, y_base, z, h, a, b, c) && cell(s1, a, b, c).block_type == BlockType::Air && cell(
            s2,
            a,
            b,
            c,
        ) == leaf_of(tree_id))
}

/// `s2` is `s1` with an oak of trunk height `h` planted at column (x, z)
/// from height `y_base`: where trunk and canopy would reach the top of the
/// chunk nothing changes; otherwise the `h` trunk positions hold logs and
/// every other block stays or is a leaf grown into air inside the canopy.
pub open spec fn tree_grown(
    s1: Seq<Block>,
    s2: Seq<Block>,
    x: int,
    y_base: int,
    z: int,
    tree_id: u32,
    h: int,
) -> bool {
    if y_base + h + 3 >= CHUNK_HEIGHT {
        s2 == s1
    } else {
        &&& trunk_logs(s2, x, y_base, z, h)
        &&& outside_trunk_kept(s1, s2, x, y_base, z, tree_id, h)
    }
}

/// Where the draw for the canopy position at height `b`, offset (dx, dz)
/// from the trunk, is kept: layer by layer from the lowest canopy layer,
/// then by x offset, then by z offset, each from -2 to 2.
pub open spec fn canopy_slot(y_base: int, h: int, b: int, dx: int, dz: int) -> int {
    (b - (y_base + h - 2)) * 25 + (dx + 2) * 5 + (dz + 2)
}

/// What the block at (a, b, c) of `s` becomes when the canopy of the oak at
/// column (x, z) with `h` logs from `y_base` grows with the given leaf
/// draws: a leaf of tree `tree_id` where the position is in the canopy,
/// holds air and its draw came out true; otherwise what it was.
pub open spec fn leaf_grown(
    s: Seq<Block>,
    draws: Seq<bool>,
    x: int,
    y_base: int,
    z: int,
    h: int,
    tree_id: u32,
    a: int,
    b: int,
    c: int,
) -> Block {
    if in_canopy(x, y_base, z, h, a, b, c) && cell(s, a, b, c).block_type == BlockType::Air
        && draws[canopy_slot(y_base, h, b, a - x, c - z)] {
        leaf_of(tree_id)
    } else {
        cell(s, a, b, c)
    }
}

/// Canopy position (b, dx, dz) comes before the one being worked on,
/// (ly, lx, lz), in the order of the draws.
pub open spec fn visited(b: int, dx: int, dz: int, ly: int, lx: int, lz: int) -> bool {
    b < ly || (b == ly && (dx < lx || (dx == lx && dz < lz)))
}

/// Off the trunk, the canopy positions before (ly, lx, lz) have grown and
/// every other position is as it was in `s0`.
pub open spec fn canopy_progress(
    s0: Seq<Block>,
    s: Seq<Block>,
    draws: Seq<bool>,
    x: int,
    y_base: int,
    z: int,
    h: int,
    tree_id: u32,
    ly: int,
    lx: int,
    lz: int,
) -> bool {
    forall|a: int, b: int, c: int|
        in_chunk(a, b, c) && !in_trunk(x, y_base, z, h, a, b, c) ==> #[trigger] cell(s, a, b, c) == if visited(
            b,
            a - x,
            c - z,
            ly,
            lx,
            lz,
        ) {
            leaf_grown(s0, draws, x, y_base, z, h, tree_id, a, b, c)
        } else {
            cell(s0, a, b, c)
        }
}

/// A canopy position lies within its layer's radius of the trunk's column.
proof fn lemma_canopy_bounds(x: int, y_base: int, z: int, h: int, a: int, b: int, c: int)
    requires
        in_canopy(x, y_base, z, h, a, b, c),
    ensures
        -canopy_radius_at(y_base + h - 1, b) <= a - x <= canopy_radius_at(y_base + h - 1, b),
        -canopy_radius_at(y_base + h - 1, b) <= c - z <= canopy_radius_at(y_base + h - 1, b),
{
    let r = canopy_radius_at(y_base + h - 1, b);
    let dx = a - x;
    let dz = c - z;
    assert(-r <= dx <= r && -r <= dz <= r) by (nonlinear_arith)
        requires
            dx * dx + dz * dz <= r * r,
            1 <= r <= 2,
    ;
}

/// Moving on in the order of the draws where only positions outside the
/// canopy change sides keeps the progress.
proof fn lemma_progress_shift(
    s0: Seq<Block>,
    s: Seq<Block>,
    draws: Seq<bool>,
    x: int,
    y_base: int,
    z: int,
    h: int,
    tree_id: u32,
    v1: (int, int, int),
    v2: (int, int, int),
)
    requires
        canopy_progress(s0, s, draws, x, y_base, z, h, tree_id, v1.0, v1.1, v1.2),
        forall|a: int, b: int, c: int|
            #[trigger] in_canopy(x, y_base, z, h, a, b, c) ==> visited(b, a - x, c - z, v1.0, v1.1, v1.2)
                == visited(b, a - x, c - z, v2.0, v2.1, v2.2),
    ensures
        canopy_progress(s0, s, draws, x, y_base, z, h, tree_id, v2.0, v2.1, v2.2),
{
    assert forall|a: int, b: int, c: int| in_chunk(a, b, c) && !in_trunk(x, y_base, z, h, a, b, c) implies #[trigger] cell(
        s,
        a,
        b,
        c,
    ) == if visited(b, a - x, c - z, v2.0, v2.1, v2.2) {
        leaf_grown(s0, draws, x, y_base, z, h, tree_id, a, b, c)
    } else {
        cell(s0, a, b, c)
    } by {
        if in_canopy(x, y_base, z, h, a, b, c) {
            assert(visited(b, a - x, c - z, v1.0, v1.1, v1.2) == visited(b, a - x, c - z, v2.0, v2.1, v2.2));
        }
    }
}

/// Passing over the position (x + lx, ly, z + lz) without growing a leaf
/// there keeps the progress when no leaf was due there.
proof fn lemma_progress_keep(
    s0: Seq<Block>,
    s: Seq<Block>,
    draws: Seq<bool>,
    x: int,
    y_base: int,
    z: int,
    h: int,
    tree_id: u32,
    ly: int,
    lx: int,
    lz: int,
)
    requires
        canopy_progress(s0, s, draws, x, y_base, z, h, tree_id, ly, lx, lz),
        in_chunk(x + lx, ly, z + lz) && !in_trunk(x, y_base, z, h, x + lx, ly, z + lz) ==> leaf_grown(
            s0,
            draws,
            x,
            y_base,
            z,
            h,
            tree_id,
            x + lx,
            ly,
            z + lz,
        ) == cell(s0, x + lx, ly, z + lz),
    ensures
        canopy_progress(s0, s, draws, x, y_base, z, h, tree_id, ly, lx, lz + 1),
{
    assert forall|a: int, b: int, c: int| in_chunk(a, b, c) && !in_trunk(x, y_base, z, h, a, b, c) implies #[trigger] cell(
        s,
        a,
        b,
        c,
    ) == if visited(b, a - x, c - z, ly, lx, lz + 1) {
        leaf_grown(s0, draws, x, y_base, z, h, tree_id, a, b, c)
    } else {
        cell(s0, a, b, c)
    } by {
        assert(cell(s, a, b, c) == if visited(b, a - x, c - z, ly, lx, lz) {
            leaf_grown(s0, draws, x, y_base, z, h, tree_id, a, b, c)
        } else {
            cell(s0, a, b, c)
        });
    }
}

/// Growing the due leaf at (x + lx, ly, z + lz) keeps the progress.
proof fn lemma_progress_write(
    s0: Seq<Block>,
    s: Seq<Block>,
    draws: Seq<bool>,
    x: int,
    y_base: int,
    z: int,
    h: int,
    tree_id: u32,
    ly: int,
    lx: int,
    lz: int,
)
    requires
        s.len() == CHUNK_VOLUME,
        canopy_progress(s0, s, draws, x, y_base, z, h, tree_id, ly, lx, lz),
        in_chunk(x + lx, ly, z + lz),
        !in_trunk(x, y_base, z, h, x + lx, ly, z + lz),
        leaf_grown(s0, draws, x, y_base, z, h, tree_id, x + lx, ly, z + lz) == leaf_of(tree_id),
    ensures
        canopy_progress(
            s0,
            s.update(block_index(x + lx, ly, z + lz), leaf_of(tree_id)),
            draws,
            x,
            y_base,
            z,
            h,
            tree_id,
            ly,
            lx,
            lz + 1,
        ),
{
    let p = (x + lx, ly, z + lz);
    let s2 = s.update(block_index(p.0, p.1, p.2), leaf_of(tree_id));
    lemma_index_bounds(p.0, p.1, p.2);
    assert forall|a: int, b: int, c: int| in_chunk(a, b, c) && !in_trunk(x, y_base, z, h, a, b, c) implies #[trigger] cell(
        s2,
        a,
        b,
        c,
    ) == if visited(b, a - x, c - z, ly, lx, lz + 1) {
        leaf_grown(s0, draws, x, y_base, z, h, tree_id, a, b, c)
    } else {
        cell(s0, a, b, c)
    } by {
        lemma_index_bounds(a, b, c);
        if block_index(a, b, c) == block_index(p.0, p.1, p.2) {
            lemma_index_injective(a, b, c, p.0, p.1, p.2);
        } else {
            assert(cell(s2, a, b, c) == cell(s, a, b, c));
            assert(cell(s, a, b, c) == if visited(b, a - x, c - z, ly, lx, lz) {
                leaf_grown(s0, draws, x, y_base, z, h, tree_id, a, b, c)
            } else {
                cell(s0, a, b, c)
            });
        }
    }
}

/// (x, y, z) lies in the canopy of a trunk of `s`: a column (tx, tz) with
/// 2 <= tx, tz <= 13 whose surface block is grass holds three to five logs
/// from just above the surface, and (x, y, z) lies in that trunk's canopy.
pub open spec fn in_some_canopy(s: Seq<Block>, x: int, y: int, z: int) -> bool {
    exists|tx: int, tz: int, h: int|
        2 <= tx <= 13 && 2 <= tz <= 13 && 3 <= h <= 5 && cell(s, tx, SURFACE_LEVEL as int, tz).block_type
            == BlockType::Grass && trunk_logs(s, tx, SURFACE_LEVEL + 1, tz, h) && #[trigger] in_canopy(
            tx,
            SURFACE_LEVEL + 1,
            tz,
            h,
            x,
            y,
            z,
        )
}

/// The block at (x, y, z) of `s2` is that of `s1`, or a log where trees
/// may stand (columns 2 to 13 both ways, the five heights above the
/// surface), or a leaf grown into air of a tree numbered from 1, in the
/// canopy of a trunk standing on grass.
pub open spec fn planted_at(s1: Seq<Block>, s2: Seq<Block>, x: int, y: int, z: int) -> bool {
    ||| cell(s2, x, y, z) == cell(s1, x, y, z)
    ||| (cell(s2, x, y, z) == fresh_block(BlockType::OakLog) && 2 <= x <= 13 && 2 <= z <= 13
        && SURFACE_LEVEL + 1 <= y <= SURFACE_LEVEL + 5)
    ||| (cell(s1, x, y, z).block_type == BlockType::Air && cell(s2, x, y, z).block_type
        == BlockType::OakLeaves && (cell(s2, x, y, z).tree_id matches Some(k) && k >= 1) && in_some_canopy(
        s2,
        x,
        y,
        z,
    ))
}

/// Planting a tree keeps every other trunk, with the grass it stands on.
proof fn lemma_canopy_kept(
    s2: Seq<Block>,
    s3: Seq<Block>,
    xc: int,
    zc: int,
    tree_id: u32,
    h: int,
    x: int,
    y: int,
    z: int,
)
    requires
        s2.len() == CHUNK_VOLUME,
        tree_grown(s2, s3, xc, SURFACE_LEVEL + 1, zc, tree_id, h),
        in_some_canopy(s2, x, y, z),
        0 <= xc < CHUNK_WIDTH,
        0 <= zc < CHUNK_DEPTH,
    ensures
        in_some_canopy(s3, x, y, z),
{
    let (tx, tz, th) = choose|tx: int, tz: int, th: int|
        2 <= tx <= 13 && 2 <= tz <= 13 && 3 <= th <= 5 && cell(s2, tx, SURFACE_LEVEL as int, tz).block_type
            == BlockType::Grass && trunk_logs(s2, tx, SURFACE_LEVEL + 1, tz, th) && #[trigger] in_canopy(
            tx,
            SURFACE_LEVEL + 1,
            tz,
            th,
            x,
            y,
            z,
        );
    if SURFACE_LEVEL + 1 + h + 3 < CHUNK_HEIGHT {
        assert(!in_trunk(xc, SURFACE_LEVEL + 1, zc, h, tx, SURFACE_LEVEL as int, tz));
        assert(cell(s3, tx, SURFACE_LEVEL as int, tz) == cell(s2, tx, SURFACE_LEVEL as int, tz));
        assert forall|j: int| 0 <= j < th implies #[trigger] cell(s3, tx, SURFACE_LEVEL + 1 + j, tz) == fresh_block(
            BlockType::OakLog,
        ) by {
            assert(cell(s2, tx, SURFACE_LEVEL + 1 + j, tz) == fresh_block(BlockType::OakLog));
            if in_trunk(xc, SURFACE_LEVEL + 1, zc, h, tx, SURFACE_LEVEL + 1 + j, tz) {
                assert(cell(s3, xc, SURFACE_LEVEL + 1 + j, zc) == fresh_block(BlockType::OakLog));
            } else {
                assert(cell(s3, tx, SURFACE_LEVEL + 1 + j, tz) == cell(s2, tx, SURFACE_LEVEL + 1 + j, tz) || cell(
                    s3, tx, SURFACE_LEVEL + 1 + j, tz) == leaf_of(tree_id));
            }
        }
    }
    assert(in_canopy(tx, SURFACE_LEVEL + 1, tz, th, x, y, z));
}

/// Planting one more tree keeps every change a planted one.
proof fn lemma_planted_step(
    s1: Seq<Block>,
    s2: Seq<Block>,
    s3: Seq<Block>,
    xc: int,
    zc: int,
    tree_id: u32,
    h: int,
)
    requires
        forall|a: int, b: int, c: int| in_chunk(a, b, c) ==> #[trigger] planted_at(s1, s2, a, b, c),
        tree_grown(s2, s3, xc, SURFACE_LEVEL + 1, zc, tree_id, h),
        3 <= h <= 5,
        2 <= xc <= 13,
        2 <= zc <= 13,
        tree_id >= 1,
        s2.len() == CHUNK_VOLUME,
        cell(s2, xc, SURFACE_LEVEL as int, zc).block_type == BlockType::Grass,
    ensures
        forall|a: int, b: int, c: int| in_chunk(a, b, c) ==> #[trigger] planted_at(s1, s3, a, b, c),
{
    assert forall|a: int, b: int, c: int| in_chunk(a, b, c) implies #[trigger] planted_at(s1, s3, a, b, c) by {
        assert(planted_at(s1, s2, a, b, c));
        if in_some_canopy(s2, a, b, c) {
            lemma_canopy_kept(s2, s3, xc, zc, tree_id, h, a, b, c);
        }
        if SURFACE_LEVEL + 1 + h + 3 < CHUNK_HEIGHT && cell(s3, a, b, c) != cell(s2, a, b, c) && !in_trunk(xc, SURFACE_LEVEL + 1, zc, h, a, b, c) {
            assert(in_canopy(xc, SURFACE_LEVEL + 1, zc, h, a, b, c));
            assert(!in_trunk(xc, SURFACE_LEVEL + 1, zc, h, xc, SURFACE_LEVEL as int, zc));
            assert(cell(s3, xc, SURFACE_LEVEL as int, zc) == cell(s2, xc, SURFACE_LEVEL as int, zc));
            assert(in_some_canopy(s3, a, b, c));
        }
        if SURFACE_LEVEL + 1 + h + 3 < CHUNK_HEIGHT {
            if in_trunk(xc, SURFACE_LEVEL + 1, zc, h, a, b, c) {
                assert(cell(s3, xc, SURFACE_LEVEL + 1 + (b - (SURFACE_LEVEL + 1)), zc) == fresh_block(BlockType::OakLog));
            }
        }
    }
}

/// Putting the next log on the trunk.
proof fn lemma_trunk_write(
    s0: Seq<Block>,
    s: Seq<Block>,
    x: int,
    y_base: int,
    z: int,
    tree_id: u32,
    h: int,
    k: int,
)
    requires
        s.len() == CHUNK_VOLUME,
        0 <= k < h,
        in_chunk(x, y_base, z),
        in_chunk(x, y_base + h, z),
        trunk_logs(s, x, y_base, z, k),
        outside_trunk_kept(s0, s, x, y_base, z, tree_id, h),
    ensures
        ({
            let s2 = s.update(block_index(x, y_base + k, z), fresh_block(BlockType::OakLog));
            &&& trunk_logs(s2, x, y_base, z, k + 1)
            &&& outside_trunk_kept(s0, s2, x, y_base, z, tree_id, h)
            &&& forall|a: int, b: int, c: int|
                in_chunk(a, b, c) && !in_trunk(x, y_base, z, h, a, b, c) ==> #[trigger] cell(s2, a, b, c) == cell(s, a, b, c)
        }),
{
    let p = (x, y_base + k, z);
    let s2 = s.update(block_index(p.0, p.1, p.2), fresh_block(BlockType::OakLog));
    lemma_index_bounds(p.0, p.1, p.2);
    assert forall|j: int| 0 <= j < k + 1 implies #[trigger] cell(s2, x, y_base + j, z) == fresh_block(
        BlockType::OakLog,
    ) by {
        lemma_index_bounds(x, y_base + j, z);
        if j < k {
            if block_index(x, y_base + j, z) == block_index(p.0, p.1, p.2) {
                lemma_index_injective(x, y_base + j, z, p.0, p.1, p.2);
            }
            assert(cell(s, x, y_base + j, z) == fresh_block(BlockType::OakLog));
        }
    }
    assert forall|a: int, b: int, c: int|
        in_chunk(a, b, c) && !in_trunk(x, y_base, z, h, a, b, c) implies #[trigger] cell(s2, a, b, c) == cell(
            s0,
            a,
            b,
            c,
        ) || (in_canopy(x, y_base, z, h, a, b, c) && cell(s0, a, b, c).block_type == BlockType::Air && cell(
            s2,
            a,
            b,
            c,
        ) == leaf_of(tree_id)) by {
        lemma_index_bounds(a, b, c);
        if block_index(a, b, c) == block_index(p.0, p.1, p.2) {
            lemma_index_injective(a, b, c, p.0, p.1, p.2);
        }
        assert(cell(s2, a, b, c) == cell(s, a, b, c));
    }
}

/// Growing a leaf into air inside the canopy, off the trunk.
proof fn lemma_leaf_write(
    s0: Seq<Block>,
    s: Seq<Block>,
    x: int,
    y_base: int,
    z: int,
    tree_id: u32,
    h: int,
    p: (int, int, int),
)
    requires
        s.len() == CHUNK_VOLUME,
        0 <= h,
        in_chunk(x, y_base, z),
        in_chunk(x, y_base + h, z),
        in_chunk(p.0, p.1, p.2),
        trunk_logs(s, x, y_base, z, h),
        outside_trunk_kept(s0, s, x, y_base, z, tree_id, h),
        cell(s, p.0, p.1, p.2).block_type == BlockType::Air,
        in_canopy(x, y_base, z, h, p.0, p.1, p.2),
    ensures
        ({
            let s2 = s.update(block_index(p.0, p.1, p.2), leaf_of(tree_id));
            &&& trunk_logs(s2, x, y_base, z, h)
            &&& outside_trunk_kept(s0, s2, x, y_base, z, tree_id, h)
        }),
{
    let s2 = s.update(block_index(p.0, p.1, p.2), leaf_of(tree_id));
    lemma_index_bounds(p.0, p.1, p.2);
    assert(!in_trunk(x, y_base, z, h, p.0, p.1, p.2)) by {
        if in_trunk(x, y_base, z, h, p.0, p.1, p.2) {
            assert(cell(s, x, y_base + (p.1 - y_base), z) == fresh_block(BlockType::OakLog));
        }
    }
    assert(cell(s0, p.0, p.1, p.2).block_type == BlockType::Air) by {
        assert(cell(s, p.0, p.1, p.2) == cell(s0, p.0, p.1, p.2) || cell(s, p.0, p.1, p.2) == leaf_of(tree_id));
    }
    assert forall|j: int| 0 <= j < h implies #[trigger] cell(s2, x, y_base + j, z) == fresh_block(
        BlockType::OakLog,
    ) by {
        lemma_index_bounds(x, y_base + j, z);
        if block_index(x, y_base + j, z) == block_index(p.0, p.1, p.2) {
            lemma_index_injective(x, y_base + j, z, p.0, p.1, p.2);
        }
        assert(cell(s, x, y_base + j, z) == fresh_block(BlockType::OakLog));
    }
    assert forall|a: int, b: int, c: int|
        in_chunk(a, b, c) && !in_trunk(x, y_base, z, h, a, b, c) implies #[trigger] cell(s2, a, b, c) == cell(
            s0,
            a,
            b,
            c,
        ) || (in_canopy(x, y_base, z, h, a, b, c) && cell(s0, a, b, c).block_type == BlockType::Air && cell(
            s2,
            a,
            b,
            c,
        ) == leaf_of(tree_id)) by {
        lemma_index_bounds(a, b, c);
        if block_index(a, b, c) == block_index(p.0, p.1, p.2) {
            lemma_index_injective(a, b, c, p.0, p.1, p.2);
        } else {
            assert(cell(s2, a, b, c) == cell(s, a, b, c));
        }
    }
}

pub proof fn lemma_grown_set(s0: Seq<Block>, s: Seq<Block>, p: (int, int, int), nb: Block, y_min: int)
    requires
        grown_above(s0, s, y_min),
        s.len() == CHUNK_VOLUME,
        in_chunk(p.0, p.1, p.2),
        p.1 >= y_min,
        grown_from(cell(s0, p.0, p.1, p.2), nb),
    ensures
        grown_above(s0, s.update(block_index(p.0, p.1, p.2), nb), y_min),
{
    let s2 = s.update(block_index(p.0, p.1, p.2), nb);
    lemma_index_bounds(p.0, p.1, p.2);
    assert forall|x: int, y: int, z: int| in_chunk(x, y, z) implies {
        &&& grown_from(cell(s0, x, y, z), #[trigger] cell(s2, x, y, z))
        &&& y < y_min ==> cell(s2, x, y, z) == cell(s0, x, y, z)
    } by {
        lemma_index_bounds(x, y, z);
        if block_index(x, y, z) == block_index(p.0, p.1, p.2) {
            lemma_index_injective(x, y, z, p.0, p.1, p.2);
        } else {
            assert(cell(s2, x, y, z) == cell(s, x, y, z));
            assert(grown_from(cell(s0, x, y, z), cell(s, x, y, z)));
        }
    }
}


/// A trunk log stands at local position (x, y, z).
pub open spec fn log_at(s: Seq<Block>, x: int, y: int, z: int) -> bool {
    in_chunk(x, y, z) && cell(s, x, y, z).block_type == BlockType::OakLog
}

/// The block at (x, y, z) can carry a trunk log: grass or a log.
pub open spec fn carries_log(s: Seq<Block>, x: int, y: int, z: int) -> bool {
    cell(s, x, y, z).block_type == BlockType::Grass || cell(s, x, y, z).block_type == BlockType::OakLog
}

/// Every trunk log stands on grass or on another log.
pub open spec fn trunks_rooted(s: Seq<Block>) -> bool {
    forall|x: int, y: int, z: int| #[trigger] log_at(s, x, y, z) ==> y >= 1 && carries_log(s, x, y - 1, z)
}

/// A log put on grass or on a log keeps the trunks rooted.
pub proof fn lemma_rooted_log(s: Seq<Block>, p: (int, int, int), nb: Block)
    requires
        s.len() == CHUNK_VOLUME,
        trunks_rooted(s),
        in_chunk(p.0, p.1, p.2),
        p.1 >= 1,
        nb.block_type == BlockType::OakLog,
        carries_log(s, p.0, p.1 - 1, p.2),
    ensures
        trunks_rooted(s.update(block_index(p.0, p.1, p.2), nb)),
{
    let s2 = s.update(block_index(p.0, p.1, p.2), nb);
    lemma_index_bounds(p.0, p.1, p.2);
    assert forall|x: int, y: int, z: int| #[trigger] log_at(s2, x, y, z) implies y >= 1 && carries_log(s2, x, y - 1, z) by {
        lemma_index_bounds(x, y, z);
        if (x, y, z) == p {
            lemma_index_bounds(x, y - 1, z);
            if block_index(x, y - 1, z) == block_index(p.0, p.1, p.2) {
                lemma_index_injective(x, y - 1, z, p.0, p.1, p.2);
            }
        } else {
            if block_index(x, y, z) == block_index(p.0, p.1, p.2) {
                lemma_index_injective(x, y, z, p.0, p.1, p.2);
            }
            assert(cell(s2, x, y, z) == cell(s, x, y, z));
            assert(log_at(s, x, y, z));
            lemma_index_bounds(x, y - 1, z);
            if block_index(x, y - 1, z) == block_index(p.0, p.1, p.2) {
                lemma_index_injective(x, y - 1, z, p.0, p.1, p.2);
            } else {
                assert(cell(s2, x, y - 1, z) == cell(s, x, y - 1, z));
            }
        }
    }
}

/// Leaves grown into air keep the trunks rooted.
pub proof fn lemma_rooted_leaf(s: Seq<Block>, p: (int, int, int), nb: Block)
    requires
        s.len() == CHUNK_VOLUME,
        trunks_rooted(s),
        in_chunk(p.0, p.1, p.2),
        cell(s, p.0, p.1, p.2).block_type == BlockType::Air,
        nb.block_type == BlockType::OakLeaves,
    ensures
        trunks_rooted(s.update(block_index(p.0, p.1, p.2), nb)),
{
    let s2 = s.update(block_index(p.0, p.1, p.2), nb);
    lemma_index_bounds(p.0, p.1, p.2);
    assert forall|x: int, y: int, z: int| #[trigger] log_at(s2, x, y, z) implies y >= 1 && carries_log(s2, x, y - 1, z) by {
        lemma_index_bounds(x, y, z);
        if block_index(x, y, z) == block_index(p.0, p.1, p.2) {
            lemma_index_injective(x, y, z, p.0, p.1, p.2);
        }
        assert(cell(s2, x, y, z) == cell(s, x, y, z));
        assert(log_at(s, x, y, z));
        lemma_index_bounds(x, y - 1, z);
        if block_index(x, y - 1, z) == block_index(p.0, p.1, p.2) {
            lemma_index_injective(x, y - 1, z, p.0, p.1, p.2);
        } else {
            assert(cell(s2, x, y - 1, z) == cell(s, x, y - 1, z));
        }
    }
}

/// One more trunk log on top of the logs already placed keeps the trunks
/// rooted.
proof fn lemma_trunk_step(s1: Seq<Block>, x: int, y_base: int, z: int, i: int)
    requires
        s1.len() == CHUNK_VOLUME,
        trunks_rooted(s1),
        1 <= y_base,
        0 <= i,
        in_chunk(x, y_base + i, z),
        cell(s1, x, y_base - 1, z).block_type == BlockType::Grass,
        forall|j: int| 0 <= j < i ==> (#[trigger] cell(s1, x, y_base + j, z)).block_type == BlockType::OakLog,
    ensures
        ({
            let s2 = s1.update(block_index(x, y_base + i, z), fresh_block(BlockType::OakLog));
            &&& trunks_rooted(s2)
            &&& cell(s2, x, y_base - 1, z).block_type == BlockType::Grass
            &&& forall|j: int|
                0 <= j < i + 1 ==> (#[trigger] cell(s2, x, y_base + j, z)).block_type == BlockType::OakLog
        }),
{
    let p = (x, y_base + i, z);
    let s2 = s1.update(block_index(x, y_base + i, z), fresh_block(BlockType::OakLog));
    if i > 0 {
        assert(cell(s1, x, y_base + (i - 1), z).block_type == BlockType::OakLog);
    }
    lemma_rooted_log(s1, p, fresh_block(BlockType::OakLog));
    lemma_index_bounds(p.0, p.1, p.2);
    assert forall|j: int| 0 <= j < i + 1 implies (#[trigger] cell(s2, x, y_base + j, z)).block_type
        == BlockType::OakLog by {
        if j < i {
            lemma_index_bounds(x, y_base + j, z);
            if block_index(x, y_base + j, z) == block_index(p.0, p.1, p.2) {
                lemma_index_injective(x, y_base + j, z, p.0, p.1, p.2);
            }
            assert(cell(s1, x, y_base + j, z).block_type == BlockType::OakLog);
        }
    }
    lemma_index_bounds(x, y_base - 1, z);
    if block_index(x, y_base - 1, z) == block_index(p.0, p.1, p.2) {
        lemma_index_injective(x, y_base - 1, z, p.0, p.1, p.2);
    }
}

/// Rootedness depends on block types alone.
pub proof fn lemma_rooted_same_types(s: Seq<Block>, s2: Seq<Block>)
    requires
        s.len() == CHUNK_VOLUME,
        same_but_sky(s, s2),
        trunks_rooted(s),
    ensures
        trunks_rooted(s2),
{
    assert forall|x: int, y: int, z: int| #[trigger] log_at(s2, x, y, z) implies y >= 1 && carries_log(s2, x, y - 1, z) by {
        lemma_index_bounds(x, y, z);
        assert(s[block_index(x, y, z)].block_type == s2[block_index(x, y, z)].block_type);
        assert(log_at(s, x, y, z));
        lemma_index_bounds(x, y - 1, z);
        assert(s[block_index(x, y - 1, z)].block_type == s2[block_index(x, y - 1, z)].block_type);
    }
}

/// The total sky light of a chunk's contents.
pub open spec fn brightness(s: Seq<Block>) -> nat
    decreases s.len(),
{
    if s.len() == 0 {
        0
    } else {
        brightness(s.drop_last()) + s.last().sky_light as nat
    }
}

pub proof fn lemma_brightness_update(s: Seq<Block>, i: int, b: Block)
    requires
        0 <= i < s.len(),
    ensures
        brightness(s.update(i, b)) + s[i].sky_light == brightness(s) + b.sky_light,
    decreases s.len(),
{
    if i == s.len() - 1 {
        assert(s.update(i, b).drop_last() =~= s.drop_last());
    } else {
        lemma_brightness_update(s.drop_last(), i, b);
        assert(s.update(i, b).drop_last() =~= s.drop_last().update(i, b));
    }
}

/// A column of sixteen by sixteen by thirty-two blocks.
pub struct Chunk {
    pub coord: (i32, i32),
    blocks: Vec<Block>,
}

impl View for Chunk {
    type V = Seq<Block>;

    closed spec fn view(&self) -> Seq<Block> {
        self.blocks@
    }
}

impl Chunk {
    /// The chunk's coordinates in the grid of chunks: its `coord` field.
    pub closed spec fn coords(&self) -> (i32, i32) {
        self.coord
    }

    /// The chunk's `coord` field, for verified code outside this module,
    /// where the field cannot be named: it is `coords()`.
    pub fn coordinates(&self) -> (r: (i32, i32))
        ensures
            r == self.coords(),
    {
        self.coord
    }

    /// The chunk holds one block per local position.
    pub open spec fn wf(&self) -> bool {
        self@.len() == CHUNK_VOLUME
    }

    /// The block at a local position.
    pub open spec fn at(&self, x: int, y: int, z: int) -> Block {
        cell(self@, x, y, z)
    }

    /// A chunk of air at chunk coordinates (`coord_x`, `coord_z`).
    pub fn new(coord_x: i32, coord_z: i32) -> (c: Self)
        ensures
            c.wf(),
            c.coords() == (coord_x, coord_z),
            forall|i: int| 0 <= i < CHUNK_VOLUME ==> #[trigger] c@[i] == fresh_block(BlockType::Air),
    {
        let blocks = vec![Block::new(BlockType::Air); CHUNK_VOLUME];
        Chunk { coord: (coord_x, coord_z), blocks }
    }

    fn index_of(x: usize, y: usize, z: usize) -> (i: usize)
        requires
            in_chunk(x as int, y as int, z as int),
        ensures
            i == block_index(x as int, y as int, z as int),
            i < CHUNK_VOLUME,
    {
        x * 512 + y * 16 + z
    }

    /// The block at a local position, or `None` outside the chunk.
    pub fn get_block(&self, x: usize, y: usize, z: usize) -> (r: Option<&Block>)
        requires
            self.wf(),
        ensures
            in_chunk(x as int, y as int, z as int) ==> r == Some(&self.at(x as int, y as int, z as int)),
            !in_chunk(x as int, y as int, z as int) ==> r is None,
    {
        if x < CHUNK_WIDTH && y < CHUNK_HEIGHT && z < CHUNK_DEPTH {
            Some(&self.blocks[Self::index_of(x, y, z)])
        } else {
            None
        }
    }

    /// Replaces the block at a local position by a fresh block of `block_type`.
    pub fn set_block(&mut self, x: usize, y: usize, z: usize, block_type: BlockType) -> (r: Result<(), &'static str>)
        requires
            old(self).wf(),
        ensures
            final(self).wf(),
            final(self).coords() == old(self).coords(),
            in_chunk(x as int, y as int, z as int) ==> r is Ok && final(self)@ == old(self)@.update(
                block_index(x as int, y as int, z as int),
                fresh_block(block_type),
            ),
            !in_chunk(x as int, y as int, z as int) ==> r is Err && final(self)@ == old(self)@,
            r matches Err(e) ==> e@ == "Coordinates out of chunk bounds"@,
    {
        if x < CHUNK_WIDTH && y < CHUNK_HEIGHT && z < CHUNK_DEPTH {
            let i = Self::index_of(x, y, z);
            self.blocks.set(i, Block::new(block_type));
            Ok(())
        } else {
            Err("Coordinates out of chunk bounds")
        }
    }

    /// Replaces the block at a local position by a fresh block of `block_type`
    /// that belongs to the tree `tree_id`.
    pub fn set_block_with_tree_id(
        &mut self,
        x: usize,
        y: usize,
        z: usize,
        block_type: BlockType,
        tree_id: u32,
    ) -> (r: Result<(), &'static str>)
        requires
            old(self).wf(),
        ensures
            final(self).wf(),
            final(self).coords() == old(self).coords(),
            in_chunk(x as int, y as int, z as int) ==> r is Ok && final(self)@ == old(self)@.update(
                block_index(x as int, y as int, z as int),
                Block { block_type, tree_id: Some(tree_id), sky_light: 0, block_light: 0 },
            ),
            !in_chunk(x as int, y as int, z as int) ==> r is Err && final(self)@ == old(self)@,
            r matches Err(e) ==> e@ == "Coordinates out of chunk bounds"@,
    {
        if x < CHUNK_WIDTH && y < CHUNK_HEIGHT && z < CHUNK_DEPTH {
            let i = Self::index_of(x, y, z);
            self.blocks.set(i, Block::new_with_tree_id(block_type, tree_id));
            Ok(())
        } else {
            Err("Coordinates out of chunk bounds")
        }
    }

    /// Sets the sky light at a local position; does nothing outside the chunk.
    pub fn set_block_light(&mut self, x: usize, y: usize, z: usize, sky_light: u8)
        requires
            old(self).wf(),
        ensures
            final(self).wf(),
            final(self).coords() == old(self).coords(),
            in_chunk(x as int, y as int, z as int) ==> final(self)@ == old(self)@.update(
                block_index(x as int, y as int, z as int),
                Block { sky_light, ..old(self).at(x as int, y as int, z as int) },
            ),
            !in_chunk(x as int, y as int, z as int) ==> final(self)@ == old(self)@,
    {
        if x < CHUNK_WIDTH && y < CHUNK_HEIGHT && z < CHUNK_DEPTH {
            let i = Self::index_of(x, y, z);
            self.set_sky_at(i, sky_light);
        }
    }





    /// Whether a tree may be planted at column (x, z): two blocks or more
    /// from the chunk's sides, on a grass surface block.  Where it may, one
    /// is planted when its draw comes out true.
    pub fn tree_site(&self, x: usize, z: usize) -> (r: bool)
        requires
            self.wf(),
        ensures
            r == (2 <= x <= 13 && 2 <= z <= 13 && self.at(x as int, SURFACE_LEVEL as int, z as int).block_type
                == BlockType::Grass),
    {
        if x < 2 || x > 13 || z < 2 || z > 13 {
            return false;
        }
        let i = Self::index_of(x, SURFACE_LEVEL, z);
        self.blocks[i].block_type == BlockType::Grass
    }

    /// The number of the tree planted after tree `id`: the next one,
    /// wrapping round to 1 (never 0).
    pub fn next_tree_id(id: u32) -> (r: u32)
        ensures
            r == if id == u32::MAX {
                1
            } else {
                id + 1
            },
    {
        let next = id.wrapping_add(1);
        if next == 0 {
            1
        } else {
            next
        }
    }

    /// Plants an oak at column (x, z) whose trunk starts at `y_base`: a trunk
    /// of three to five logs and a roughly round canopy of leaves around its
    /// top, each leaf placed at random and only into air.  Nothing is planted
    /// where the canopy would reach the top of the chunk.
    fn place_tree(&mut self, x: usize, y_base: usize, z: usize, tree_id: u32, rng: &mut ThreadRng)
        requires
            old(self).wf(),
            x < CHUNK_WIDTH,
            z < CHUNK_DEPTH,
            y_base < CHUNK_HEIGHT,
        ensures
            final(self).wf(),
            final(self).coords() == old(self).coords(),
            grown_above(old(self)@, final(self)@, y_base as int),
            trunks_rooted(old(self)@) && 1 <= y_base && cell(old(self)@, x as int, y_base - 1, z as int).block_type
                == BlockType::Grass ==> trunks_rooted(final(self)@),
            exists|h: int|
                3 <= h <= 5 && #[trigger] tree_grown(
                    old(self)@,
                    final(self)@,
                    x as int,
                    y_base as int,
                    z as int,
                    tree_id,
                    h,
                ),
    {
        let ghost s0 = self@;
        let trunk_height: usize = random_in_range(rng, 3, 5);
        if y_base + trunk_height + 3 >= CHUNK_HEIGHT {
            proof {
                assert forall|a: int, b: int, c: int| in_chunk(a, b, c) implies {
                    &&& grown_from(cell(s0, a, b, c), #[trigger] cell(s0, a, b, c))
                    &&& b < y_base ==> cell(s0, a, b, c) == cell(s0, a, b, c)
                } by {}
                assert(tree_grown(s0, self@, x as int, y_base as int, z as int, tree_id, trunk_height as int));
            }
            return;
        }
        let leaf_draws = Self::draw_leaves(x, y_base, z, trunk_height, rng);
        self.grow_tree(x, y_base, z, tree_id, trunk_height, &leaf_draws);
        proof {
            assert(tree_grown(s0, self@, x as int, y_base as int, z as int, tree_id, trunk_height as int));
        }
    }

    /// The leaf draws of an oak at column (x, z) with `trunk_height` logs
    /// from `y_base`, in the order of `canopy_slot`: every canopy position
    /// inside the chunk and off the trunk is drawn, near the trunk's column
    /// with chance 19 in 20 and at the layer's rim with chance 3 in 5; any
    /// other slot holds `false`.
    fn draw_leaves(x: usize, y_base: usize, z: usize, trunk_height: usize, rng: &mut ThreadRng) -> (draws: Vec<bool>)
        requires
            x < CHUNK_WIDTH,
            z < CHUNK_DEPTH,
            3 <= trunk_height <= 5,
            y_base + trunk_height + 3 < CHUNK_HEIGHT,
        ensures
            draws@.len() == 100,
            forall|b: int, dx: int, dz: int|
                y_base + trunk_height - 2 <= b <= y_base + trunk_height + 1 && -2 <= dx <= 2 && -2 <= dz <= 2
                    && #[trigger] draws@[canopy_slot(y_base as int, trunk_height as int, b, dx, dz)] ==> in_chunk(
                    x + dx,
                    b,
                    z + dz,
                ) && in_canopy(x as int, y_base as int, z as int, trunk_height as int, x + dx, b, z + dz),
    {
        let canopy_radius: isize = 2;
        let canopy_center_y_world = y_base + trunk_height - 1;
        let y_start_canopy = y_base + trunk_height - 2;
        let mut draws: Vec<bool> = Vec::new();
        let mut ly = y_start_canopy;
        while ly <= y_start_canopy + 3
            invariant
                x < CHUNK_WIDTH,
                z < CHUNK_DEPTH,
                canopy_radius == 2,
                canopy_center_y_world == y_start_canopy + 1,
                y_start_canopy + 3 < CHUNK_HEIGHT,
                y_start_canopy <= ly <= y_start_canopy + 4,
                draws@.len() == (ly - y_start_canopy) * 25,
                forall|b: int, dx: int, dz: int|
                    y_start_canopy <= b <= y_start_canopy + 3 && -2 <= dx <= 2 && -2 <= dz <= 2
                        && canopy_slot(y_base as int, trunk_height as int, b, dx, dz) < draws@.len()
                        && #[trigger] draws@[canopy_slot(y_base as int, trunk_height as int, b, dx, dz)] ==> in_chunk(
                        x + dx,
                        b,
                        z + dz,
                    ) && in_canopy(x as int, y_base as int, z as int, trunk_height as int, x + dx, b, z + dz),
                y_start_canopy == y_base + trunk_height - 2,
                3 <= trunk_height <= 5,
                y_start_canopy + 3 < CHUNK_HEIGHT,
            decreases y_start_canopy + 4 - ly,
        {
            let y_dist_from_canopy_center: isize = if ly >= canopy_center_y_world {
                (ly - canopy_center_y_world) as isize
            } else {
                (canopy_center_y_world - ly) as isize
            };
            let current_layer_radius: isize = if y_dist_from_canopy_center <= 0 {
                canopy_radius
            } else if y_dist_from_canopy_center == 1 {
                canopy_radius
            } else if canopy_radius - 1 > 1 {
                canopy_radius - 1
            } else {
                1
            };
            let mut lx_offset: isize = -2;
            while lx_offset <= 2
                invariant
                    x < CHUNK_WIDTH,
                    z < CHUNK_DEPTH,
                    canopy_radius == 2,
                    1 <= current_layer_radius <= 2,
                    0 <= y_dist_from_canopy_center <= 2,
                    y_start_canopy <= ly <= y_start_canopy + 3,
                    -2 <= lx_offset <= 3,
                    draws@.len() == (ly - y_start_canopy) * 25 + (lx_offset + 2) * 5,
                    forall|b: int, dx: int, dz: int|
                        y_start_canopy <= b <= y_start_canopy + 3 && -2 <= dx <= 2 && -2 <= dz <= 2
                            && canopy_slot(y_base as int, trunk_height as int, b, dx, dz) < draws@.len()
                            && #[trigger] draws@[canopy_slot(y_base as int, trunk_height as int, b, dx, dz)] ==> in_chunk(
                            x + dx,
                            b,
                            z + dz,
                        ) && in_canopy(x as int, y_base as int, z as int, trunk_height as int, x + dx, b, z + dz),
                    y_start_canopy == y_base + trunk_height - 2,
                    3 <= trunk_height <= 5,
                    y_start_canopy + 3 < CHUNK_HEIGHT,
                    canopy_center_y_world == y_start_canopy + 1,
                    y_dist_from_canopy_center == (if ly >= canopy_center_y_world { ly - canopy_center_y_world } else { canopy_center_y_world - ly }),
                    current_layer_radius == canopy_radius_at(canopy_center_y_world as int, ly as int),
                decreases 3 - lx_offset,
            {
                let mut lz_offset: isize = -2;
                while lz_offset <= 2
                    invariant
                        x < CHUNK_WIDTH,
                        z < CHUNK_DEPTH,
                        canopy_radius == 2,
                        1 <= current_layer_radius <= 2,
                        0 <= y_dist_from_canopy_center <= 2,
                        y_start_canopy <= ly <= y_start_canopy + 3,
                        -2 <= lx_offset <= 2,
                        -2 <= lz_offset <= 3,
                        draws@.len() == (ly - y_start_canopy) * 25 + (lx_offset + 2) * 5 + (lz_offset + 2),
                        forall|b: int, dx: int, dz: int|
                            y_start_canopy <= b <= y_start_canopy + 3 && -2 <= dx <= 2 && -2 <= dz <= 2
                                && canopy_slot(y_base as int, trunk_height as int, b, dx, dz) < draws@.len()
                                && #[trigger] draws@[canopy_slot(y_base as int, trunk_height as int, b, dx, dz)] ==> in_chunk(
                                x + dx,
                                b,
                                z + dz,
                            ) && in_canopy(x as int, y_base as int, z as int, trunk_height as int, x + dx, b, z + dz),
                        y_start_canopy == y_base + trunk_height - 2,
                        3 <= trunk_height <= 5,
                        y_start_canopy + 3 < CHUNK_HEIGHT,
                        canopy_center_y_world == y_start_canopy + 1,
                        y_dist_from_canopy_center == (if ly >= canopy_center_y_world { ly - canopy_center_y_world } else { canopy_center_y_world - ly }),
                        current_layer_radius == canopy_radius_at(canopy_center_y_world as int, ly as int),
                    decreases 3 - lz_offset,
                {
                    let mut drawn = false;
                    let in_layer = -current_layer_radius <= lx_offset && lx_offset <= current_layer_radius
                        && -current_layer_radius <= lz_offset && lz_offset <= current_layer_radius;
                    let current_x_world = x as isize + lx_offset;
                    let current_z_world = z as isize + lz_offset;
                    let inside = !(current_x_world < 0 || current_x_world >= CHUNK_WIDTH as isize
                        || current_z_world < 0 || current_z_world >= CHUNK_DEPTH as isize);
                    let below_top_log = lx_offset == 0 && lz_offset == 0 && ly < canopy_center_y_world;
                    if in_layer && inside && !below_top_log {
                        proof {
                            lemma_small_square(lx_offset as int);
                            lemma_small_square(lz_offset as int);
                            lemma_small_square(current_layer_radius as int);
                            lemma_small_square(canopy_radius + 1);
                        }
                        let dist_sq_horiz = lx_offset * lx_offset + lz_offset * lz_offset;
                        let skip = dist_sq_horiz > current_layer_radius * current_layer_radius && (
                        y_dist_from_canopy_center > 0 || dist_sq_horiz > (canopy_radius + 1) * (canopy_radius
                            + 1));
                        if !skip {
                            let r_core = if current_layer_radius - 1 > 0 {
                                current_layer_radius - 1
                            } else {
                                0
                            };
                            proof {
                                lemma_small_square(r_core as int);
                            }
                            let (numerator, denominator): (u32, u32) = if dist_sq_horiz <= r_core * r_core {
                                (19, 20)
                            } else if dist_sq_horiz <= current_layer_radius * current_layer_radius {
                                (3, 5)
                            } else {
                                (0, 1)
                            };
                            if numerator > 0 {
                                drawn = random_ratio(rng, numerator, denominator);
                                proof {
                                    assert(within_radius(lx_offset as int, lz_offset as int, current_layer_radius as int));
                                    assert((x + lx_offset) - x == lx_offset as int);
                                    assert((z + lz_offset) - z == lz_offset as int);
                                    assert(in_canopy(x as int, y_base as int, z as int, trunk_height as int, x + lx_offset, ly as int, z + lz_offset));
                                }
                            }
                        }
                    }
                    proof {
                        if drawn {
                            assert(in_chunk(x + lx_offset, ly as int, z + lz_offset));
                            assert(in_canopy(x as int, y_base as int, z as int, trunk_height as int, x + lx_offset, ly as int, z + lz_offset));
                        }
                    }
                    let ghost d0 = draws@;
                    draws.push(drawn);
                    proof {
                        assert forall|b: int, dx: int, dz: int|
                            y_start_canopy <= b <= y_start_canopy + 3 && -2 <= dx <= 2 && -2 <= dz <= 2
                                && canopy_slot(y_base as int, trunk_height as int, b, dx, dz) < draws@.len()
                                && #[trigger] draws@[canopy_slot(y_base as int, trunk_height as int, b, dx, dz)] implies in_chunk(
                                x + dx,
                                b,
                                z + dz,
                            ) && in_canopy(x as int, y_base as int, z as int, trunk_height as int, x + dx, b, z + dz) by {
                            if canopy_slot(y_base as int, trunk_height as int, b, dx, dz) < d0.len() {
                                assert(draws@[canopy_slot(y_base as int, trunk_height as int, b, dx, dz)] == d0[canopy_slot(y_base as int, trunk_height as int, b, dx, dz)]);
                            } else {
                                assert(b == ly && dx == lx_offset && dz == lz_offset);
                            }
                        }
                    }
                    lz_offset = lz_offset + 1;
                }
                lx_offset = lx_offset + 1;
            }
            ly = ly + 1;
        }
        draws
    }

    /// Grows an oak at column (x, z) whose trunk of `trunk_height` logs starts
    /// at `y_base`, with the leaf draws already made: nothing where the canopy
    /// would reach the top of the chunk; otherwise the trunk's logs, and a
    /// leaf of tree `tree_id` at every canopy position that holds air and
    /// whose draw (kept at its `canopy_slot`) came out true.
    pub fn grow_tree(
        &mut self,
        x: usize,
        y_base: usize,
        z: usize,
        tree_id: u32,
        trunk_height: usize,
        leaf_draws: &Vec<bool>,
    )
        requires
            old(self).wf(),
            x < CHUNK_WIDTH,
            z < CHUNK_DEPTH,
            y_base < CHUNK_HEIGHT,
            3 <= trunk_height <= 5,
            leaf_draws@.len() == 100,
        ensures
            final(self).wf(),
            final(self).coords() == old(self).coords(),
            grown_above(old(self)@, final(self)@, y_base as int),
            trunks_rooted(old(self)@) && 1 <= y_base && cell(old(self)@, x as int, y_base - 1, z as int).block_type
                == BlockType::Grass ==> trunks_rooted(final(self)@),
            y_base + trunk_height + 3 >= CHUNK_HEIGHT ==> final(self)@ == old(self)@,
            y_base + trunk_height + 3 < CHUNK_HEIGHT ==> trunk_logs(
                final(self)@,
                x as int,
                y_base as int,
                z as int,
                trunk_height as int,
            ),
            y_base + trunk_height + 3 < CHUNK_HEIGHT ==> forall|a: int, b: int, c: int|
                in_chunk(a, b, c) && !in_trunk(x as int, y_base as int, z as int, trunk_height as int, a, b, c)
                    ==> #[trigger] cell(final(self)@, a, b, c) == leaf_grown(
                    old(self)@,
                    leaf_draws@,
                    x as int,
                    y_base as int,
                    z as int,
                    trunk_height as int,
                    tree_id,
                    a,
                    b,
                    c,
                ),
    {
        let ghost rooted = trunks_rooted(old(self)@) && 1 <= y_base && cell(old(self)@, x as int, y_base - 1, z as int).block_type
            == BlockType::Grass;
        let ghost s0 = self@;
        proof {
            assert forall|a: int, b: int, c: int| in_chunk(a, b, c) implies {
                &&& grown_from(cell(s0, a, b, c), #[trigger] cell(s0, a, b, c))
                &&& b < y_base ==> cell(s0, a, b, c) == cell(s0, a, b, c)
            } by {}
        }
        let canopy_radius: isize = 2;
        let canopy_base_y_offset: usize = trunk_height.saturating_sub(2);
        let canopy_max_height_above_base: usize = 3;
        let tree_top_y = y_base + trunk_height;
        if tree_top_y + canopy_max_height_above_base >= CHUNK_HEIGHT {
            return;
        }
        let mut i: usize = 0;
        while i < trunk_height
            invariant
                i <= trunk_height <= 5,
                x < CHUNK_WIDTH,
                z < CHUNK_DEPTH,
                y_base + trunk_height + 3 < CHUNK_HEIGHT,
                self.wf(),
                self.coords() == old(self).coords(),
                grown_above(s0, self@, y_base as int),
                rooted ==> trunks_rooted(self@),
                rooted ==> 1 <= y_base,
                rooted ==> cell(self@, x as int, y_base - 1, z as int).block_type == BlockType::Grass,
                rooted ==> forall|j: int| 0 <= j < i ==> (#[trigger] cell(self@, x as int, y_base + j, z as int)).block_type
                    == BlockType::OakLog,
                3 <= trunk_height,
                trunk_logs(self@, x as int, y_base as int, z as int, i as int),
                outside_trunk_kept(s0, self@, x as int, y_base as int, z as int, tree_id, trunk_height as int),
                forall|a: int, b: int, c: int|
                    in_chunk(a, b, c) && !in_trunk(x as int, y_base as int, z as int, trunk_height as int, a, b, c)
                        ==> #[trigger] cell(self@, a, b, c) == cell(s0, a, b, c),
            decreases trunk_height - i,
        {
            if y_base + i < CHUNK_HEIGHT {
                let ghost s1 = self@;
                let _ = self.set_block(x, y_base + i, z, BlockType::OakLog);
                proof {
                    lemma_grown_set(s0, s1, (x as int, (y_base + i) as int, z as int), fresh_block(BlockType::OakLog), y_base as int);
                    if rooted {
                        lemma_trunk_step(s1, x as int, y_base as int, z as int, i as int);
                    }
                    lemma_trunk_write(s0, s1, x as int, y_base as int, z as int, tree_id, trunk_height as int, i as int);
                }
            }
            i = i + 1;
        }
        let canopy_center_y_world = y_base + trunk_height - 1;
        let y_start_canopy = y_base + canopy_base_y_offset;
        let y_end_canopy = if y_base + trunk_height + 1 < CHUNK_HEIGHT - 1 {
            y_base + trunk_height + 1
        } else {
            CHUNK_HEIGHT - 1
        };
        proof {
            assert forall|a: int, b: int, c: int| in_chunk(a, b, c) && !in_trunk(x as int, y_base as int, z as int, trunk_height as int, a, b, c) implies #[trigger] cell(
                self@, a, b, c) == if visited(b, a - x, c - z, y_start_canopy as int, -3, -3) {
                leaf_grown(s0, leaf_draws@, x as int, y_base as int, z as int, trunk_height as int, tree_id, a, b, c)
            } else {
                cell(s0, a, b, c)
            } by {
                assert(cell(self@, a, b, c) == cell(s0, a, b, c));
                if visited(b, a - x, c - z, y_start_canopy as int, -3, -3) && in_canopy(x as int, y_base as int, z as int, trunk_height as int, a, b, c) {
                    lemma_canopy_bounds(x as int, y_base as int, z as int, trunk_height as int, a, b, c);
                    assert(false);
                }
            }
        }
        let mut ly = y_start_canopy;
        while ly <= y_end_canopy
            invariant
                x < CHUNK_WIDTH,
                z < CHUNK_DEPTH,
                y_base <= y_start_canopy,
                y_end_canopy < CHUNK_HEIGHT,
                y_start_canopy <= ly <= y_end_canopy + 1,
                canopy_center_y_world < CHUNK_HEIGHT,
                canopy_radius == 2,
                self.wf(),
                self.coords() == old(self).coords(),
                grown_above(s0, self@, y_base as int),
                rooted ==> trunks_rooted(self@),
                3 <= trunk_height <= 5,
                y_base + trunk_height + 3 < CHUNK_HEIGHT,
                canopy_center_y_world == y_base + trunk_height - 1,
                y_start_canopy == y_base + trunk_height - 2,
                y_end_canopy == y_base + trunk_height + 1,
                trunk_logs(self@, x as int, y_base as int, z as int, trunk_height as int),
                outside_trunk_kept(s0, self@, x as int, y_base as int, z as int, tree_id, trunk_height as int),
                leaf_draws@.len() == 100,
                canopy_progress(s0, self@, leaf_draws@, x as int, y_base as int, z as int, trunk_height as int, tree_id, ly as int, -3, -3),
            decreases y_end_canopy + 1 - ly,
        {
            let y_dist_from_canopy_center: isize = if ly >= canopy_center_y_world {
                (ly - canopy_center_y_world) as isize
            } else {
                (canopy_center_y_world - ly) as isize
            };
            let current_layer_radius: isize = if y_dist_from_canopy_center <= 0 {
                canopy_radius
            } else if y_dist_from_canopy_center == 1 {
                canopy_radius
            } else if canopy_radius - 1 > 1 {
                canopy_radius - 1
            } else {
                1
            };
            proof {
                assert forall|a: int, b: int, c: int| #[trigger] in_canopy(x as int, y_base as int, z as int, trunk_height as int, a, b, c) implies visited(b, a - x, c - z, ly as int, -3, -3) == visited(b, a - x, c - z, ly as int, -current_layer_radius as int, -3) by {
                    lemma_canopy_bounds(x as int, y_base as int, z as int, trunk_height as int, a, b, c);
                }
                lemma_progress_shift(s0, self@, leaf_draws@, x as int, y_base as int, z as int, trunk_height as int, tree_id, (ly as int, -3, -3), (ly as int, -current_layer_radius as int, -3));
            }
            let mut lx_offset: isize = -current_layer_radius;
            while lx_offset <= current_layer_radius
                invariant
                    x < CHUNK_WIDTH,
                    z < CHUNK_DEPTH,
                    y_base <= ly < CHUNK_HEIGHT,
                    1 <= current_layer_radius <= 2,
                    canopy_radius == 2,
                    0 <= y_dist_from_canopy_center < CHUNK_HEIGHT,
                    -current_layer_radius <= lx_offset <= current_layer_radius + 1,
                    self.wf(),
                    self.coords() == old(self).coords(),
                    grown_above(s0, self@, y_base as int),
                    rooted ==> trunks_rooted(self@),
                    3 <= trunk_height <= 5,
                    y_base + trunk_height + 3 < CHUNK_HEIGHT,
                    canopy_center_y_world == y_base + trunk_height - 1,
                    y_start_canopy == y_base + trunk_height - 2,
                    y_end_canopy == y_base + trunk_height + 1,
                    trunk_logs(self@, x as int, y_base as int, z as int, trunk_height as int),
                    outside_trunk_kept(s0, self@, x as int, y_base as int, z as int, tree_id, trunk_height as int),
                    y_start_canopy <= ly <= y_end_canopy,
                    y_dist_from_canopy_center == (if ly >= canopy_center_y_world { ly - canopy_center_y_world } else { canopy_center_y_world - ly }),
                    current_layer_radius == canopy_radius_at(canopy_center_y_world as int, ly as int),
                    leaf_draws@.len() == 100,
                    canopy_progress(s0, self@, leaf_draws@, x as int, y_base as int, z as int, trunk_height as int, tree_id, ly as int, lx_offset as int, -3),
                decreases current_layer_radius + 1 - lx_offset,
            {
                proof {
                    assert forall|a: int, b: int, c: int| #[trigger] in_canopy(x as int, y_base as int, z as int, trunk_height as int, a, b, c) implies visited(b, a - x, c - z, ly as int, lx_offset as int, -3) == visited(b, a - x, c - z, ly as int, lx_offset as int, -current_layer_radius as int) by {
                        lemma_canopy_bounds(x as int, y_base as int, z as int, trunk_height as int, a, b, c);
                    }
                    lemma_progress_shift(s0, self@, leaf_draws@, x as int, y_base as int, z as int, trunk_height as int, tree_id, (ly as int, lx_offset as int, -3), (ly as int, lx_offset as int, -current_layer_radius as int));
                }
                let mut lz_offset: isize = -current_layer_radius;
                while lz_offset <= current_layer_radius
                    invariant
                        x < CHUNK_WIDTH,
                        z < CHUNK_DEPTH,
                        y_base <= ly < CHUNK_HEIGHT,
                        1 <= current_layer_radius <= 2,
                        canopy_radius == 2,
                        0 <= y_dist_from_canopy_center < CHUNK_HEIGHT,
                        -current_layer_radius <= lx_offset <= current_layer_radius,
                        -current_layer_radius <= lz_offset <= current_layer_radius + 1,
                        self.wf(),
                        self.coords() == old(self).coords(),
                        grown_above(s0, self@, y_base as int),
                        rooted ==> trunks_rooted(self@),
                        3 <= trunk_height <= 5,
                        y_base + trunk_height + 3 < CHUNK_HEIGHT,
                        canopy_center_y_world == y_base + trunk_height - 1,
                        y_start_canopy == y_base + trunk_height - 2,
                        y_end_canopy == y_base + trunk_height + 1,
                        trunk_logs(self@, x as int, y_base as int, z as int, trunk_height as int),
                        outside_trunk_kept(s0, self@, x as int, y_base as int, z as int, tree_id, trunk_height as int),
                        y_start_canopy <= ly <= y_end_canopy,
                        y_dist_from_canopy_center == (if ly >= canopy_center_y_world { ly - canopy_center_y_world } else { canopy_center_y_world - ly }),
                        current_layer_radius == canopy_radius_at(canopy_center_y_world as int, ly as int),
                        leaf_draws@.len() == 100,
                        canopy_progress(s0, self@, leaf_draws@, x as int, y_base as int, z as int, trunk_height as int, tree_id, ly as int, lx_offset as int, lz_offset as int),
                    decreases current_layer_radius + 1 - lz_offset,
                {
                    let ghost sb = self@;
                    let current_x_world = x as isize + lx_offset;
                    let current_z_world = z as isize + lz_offset;
                    let inside = !(current_x_world < 0 || current_x_world >= CHUNK_WIDTH as isize
                        || current_z_world < 0 || current_z_world >= CHUNK_DEPTH as isize);
                    if inside {
                        let ux = current_x_world as usize;
                        let uy = ly;
                        let uz = current_z_world as usize;
                        let below_top_log = lx_offset == 0 && lz_offset == 0 && uy < canopy_center_y_world;
                        if !below_top_log {
                            proof {
                                lemma_small_square(lx_offset as int);
                                lemma_small_square(lz_offset as int);
                                lemma_small_square(current_layer_radius as int);
                            }
                            let dist_sq_horiz = lx_offset * lx_offset + lz_offset * lz_offset;
                            if dist_sq_horiz <= current_layer_radius * current_layer_radius {
                                let slot: usize = (ly - y_start_canopy) * 25 + ((lx_offset + 2) as usize) * 5 + ((
                                lz_offset + 2) as usize);
                                proof {
                                    assert(ux as int - x as int == lx_offset as int);
                                    assert(uz as int - z as int == lz_offset as int);
                                    assert(within_radius(lx_offset as int, lz_offset as int, current_layer_radius as int));
                                    assert(in_canopy(x as int, y_base as int, z as int, trunk_height as int, ux as int, uy as int, uz as int));
                                    assert(slot as int == canopy_slot(y_base as int, trunk_height as int, uy as int, lx_offset as int, lz_offset as int));
                                    if in_trunk(x as int, y_base as int, z as int, trunk_height as int, ux as int, uy as int, uz as int) {
                                        assert(cell(sb, x as int, y_base + (uy - y_base), z as int) == fresh_block(BlockType::OakLog));
                                    } else {
                                        assert(cell(sb, ux as int, uy as int, uz as int) == cell(s0, ux as int, uy as int, uz as int));
                                    }
                                }
                                if leaf_draws[slot] {
                                    let idx = Self::index_of(ux, uy, uz);
                                    if self.blocks[idx].block_type == BlockType::Air {
                                        let ghost s1 = self@;
                                        proof {
                                            assert(grown_from(cell(s0, ux as int, uy as int, uz as int), cell(s1, ux as int, uy as int, uz as int)));
                                        }
                                        let _ = self.set_block_with_tree_id(ux, uy, uz, BlockType::OakLeaves, tree_id);
                                        proof {
                                            lemma_grown_set(s0, s1, (ux as int, uy as int, uz as int), Block { block_type: BlockType::OakLeaves, tree_id: Some(tree_id), sky_light: 0, block_light: 0 }, y_base as int);
                                            if rooted {
                                                lemma_rooted_leaf(s1, (ux as int, uy as int, uz as int), Block { block_type: BlockType::OakLeaves, tree_id: Some(tree_id), sky_light: 0, block_light: 0 });
                                            }
                                            lemma_leaf_write(s0, s1, x as int, y_base as int, z as int, tree_id, trunk_height as int, (ux as int, uy as int, uz as int));
                                            lemma_progress_write(s0, s1, leaf_draws@, x as int, y_base as int, z as int, trunk_height as int, tree_id, ly as int, lx_offset as int, lz_offset as int);
                                        }
                                    } else {
                                        proof {
                                            lemma_progress_keep(s0, self@, leaf_draws@, x as int, y_base as int, z as int, trunk_height as int, tree_id, ly as int, lx_offset as int, lz_offset as int);
                                        }
                                    }
                                } else {
                                    proof {
                                        lemma_progress_keep(s0, self@, leaf_draws@, x as int, y_base as int, z as int, trunk_height as int, tree_id, ly as int, lx_offset as int, lz_offset as int);
                                    }
                                }
                            } else {
                                proof {
                                    assert(!within_radius(lx_offset as int, lz_offset as int, current_layer_radius as int));
                                    assert(ux as int - x as int == lx_offset as int);
                                    assert(uz as int - z as int == lz_offset as int);
                                    assert(!in_canopy(x as int, y_base as int, z as int, trunk_height as int, ux as int, uy as int, uz as int));
                                    lemma_progress_keep(s0, self@, leaf_draws@, x as int, y_base as int, z as int, trunk_height as int, tree_id, ly as int, lx_offset as int, lz_offset as int);
                                }
                            }
                        } else {
                            proof {
                                assert(in_trunk(x as int, y_base as int, z as int, trunk_height as int, ux as int, uy as int, uz as int));
                                lemma_progress_keep(s0, self@, leaf_draws@, x as int, y_base as int, z as int, trunk_height as int, tree_id, ly as int, lx_offset as int, lz_offset as int);
                            }
                        }
                    } else {
                        proof {
                            assert(!in_chunk(x + lx_offset, ly as int, z + lz_offset));
                            lemma_progress_keep(s0, self@, leaf_draws@, x as int, y_base as int, z as int, trunk_height as int, tree_id, ly as int, lx_offset as int, lz_offset as int);
                        }
                    }
                    lz_offset = lz_offset + 1;
                }
                proof {
                    assert forall|a: int, b: int, c: int| #[trigger] in_canopy(x as int, y_base as int, z as int, trunk_height as int, a, b, c) implies visited(b, a - x, c - z, ly as int, lx_offset as int, lz_offset as int) == visited(b, a - x, c - z, ly as int, lx_offset + 1, -3) by {
                        lemma_canopy_bounds(x as int, y_base as int, z as int, trunk_height as int, a, b, c);
                    }
                    lemma_progress_shift(s0, self@, leaf_draws@, x as int, y_base as int, z as int, trunk_height as int, tree_id, (ly as int, lx_offset as int, lz_offset as int), (ly as int, lx_offset + 1, -3));
                }
                lx_offset = lx_offset + 1;
            }
            proof {
                assert forall|a: int, b: int, c: int| #[trigger] in_canopy(x as int, y_base as int, z as int, trunk_height as int, a, b, c) implies visited(b, a - x, c - z, ly as int, lx_offset as int, -3) == visited(b, a - x, c - z, ly + 1, -3, -3) by {
                    lemma_canopy_bounds(x as int, y_base as int, z as int, trunk_height as int, a, b, c);
                }
                lemma_progress_shift(s0, self@, leaf_draws@, x as int, y_base as int, z as int, trunk_height as int, tree_id, (ly as int, lx_offset as int, -3), (ly + 1, -3, -3));
            }
            ly = ly + 1;
        }
        proof {
            assert forall|a: int, b: int, c: int|
                in_chunk(a, b, c) && !in_trunk(x as int, y_base as int, z as int, trunk_height as int, a, b, c)
                    implies #[trigger] cell(self@, a, b, c) == leaf_grown(s0, leaf_draws@, x as int, y_base as int, z as int, trunk_height as int, tree_id, a, b, c) by {
                assert(cell(self@, a, b, c) == if visited(b, a - x, c - z, ly as int, -3, -3) {
                    leaf_grown(s0, leaf_draws@, x as int, y_base as int, z as int, trunk_height as int, tree_id, a, b, c)
                } else {
                    cell(s0, a, b, c)
                });
            }
        }
    }

    /// Fills the chunk with flat terrain (bedrock at the bottom, dirt up to
    /// the surface, grass on it) and plants oak trees on the grass at random.
    /// Above the surface every block either stays as it was, becomes a trunk
    /// log, or, where there was air, becomes leaves of some tree.
    pub fn generate_terrain(&mut self)
        requires
            old(self).wf(),
        ensures
            final(self).wf(),
            final(self).coords() == old(self).coords(),
            forall|x: int, y: int, z: int|
                in_chunk(x, y, z) && y <= SURFACE_LEVEL ==> #[trigger] final(self).at(x, y, z)
                    == fresh_block(terrain_type(y)),
            forall|x: int, y: int, z: int|
                in_chunk(x, y, z) && y > SURFACE_LEVEL ==> grown_from(
                    old(self).at(x, y, z),
                    #[trigger] final(self).at(x, y, z),
                ),
            trunks_rooted(old(self)@) ==> trunks_rooted(final(self)@),
            forall|x: int, y: int, z: int|
                in_chunk(x, y, z) && y > SURFACE_LEVEL ==> #[trigger] planted_at(old(self)@, final(self)@, x, y, z),
    {
        let ghost s0 = self@;
        let ghost rooted0 = trunks_rooted(s0);
        let mut x: usize = 0;
        while x < CHUNK_WIDTH
            invariant
                x <= CHUNK_WIDTH,
                self.wf(),
                self.coords() == old(self).coords(),
                forall|a: int, b: int, c: int|
                    in_chunk(a, b, c) ==> #[trigger] base_filled(s0, self@, column_order(x as int, 0), a, b, c),
            decreases CHUNK_WIDTH - x,
        {
            let mut z: usize = 0;
            while z < CHUNK_DEPTH
                invariant
                    x < CHUNK_WIDTH,
                    z <= CHUNK_DEPTH,
                    self.wf(),
                    self.coords() == old(self).coords(),
                    forall|a: int, b: int, c: int|
                        in_chunk(a, b, c) ==> #[trigger] base_filled(s0, self@, column_order(x as int, z as int), a, b, c),
                decreases CHUNK_DEPTH - z,
            {
                self.fill_column(x, z, Ghost(s0));
                proof {
                    assert forall|a: int, b: int, c: int| in_chunk(a, b, c) implies #[trigger] base_filled(s0, self@, column_order(x as int, z + 1), a, b, c) by {
                        assert(base_filled(s0, self@, column_order(x as int, z as int) + 1, a, b, c));
                    }
                }
                z = z + 1;
            }
            proof {
                assert forall|a: int, b: int, c: int| in_chunk(a, b, c) implies #[trigger] base_filled(s0, self@, column_order(x + 1, 0), a, b, c) by {
                    assert(base_filled(s0, self@, column_order(x as int, z as int), a, b, c));
                }
            }
            x = x + 1;
        }
        let ghost s1 = self@;
        proof {
            assert forall|a: int, b: int, c: int| in_chunk(a, b, c) implies #[trigger] base_filled(s0, s1, 256, a, b, c) by {
                assert(base_filled(s0, s1, column_order(x as int, 0), a, b, c));
            }
            assert forall|a: int, b: int, c: int| in_chunk(a, b, c) && b <= SURFACE_LEVEL implies #[trigger] cell(s1, a, b, c) == fresh_block(terrain_type(b)) by {
                assert(base_filled(s0, s1, 256, a, b, c));
            }
            if rooted0 {
                assert forall|a: int, b: int, c: int| #[trigger] log_at(s1, a, b, c) implies b >= 1 && carries_log(s1, a, b - 1, c) by {
                    assert(base_filled(s0, s1, 256, a, b, c));
                    assert(base_filled(s0, s1, 256, a, b - 1, c));
                    assert(log_at(s0, a, b, c));
                }
            }
        }
        let mut rng = thread_rng();
        let mut next_tree_id: u32 = 1;
        proof {
            assert forall|a: int, b: int, c: int| in_chunk(a, b, c) implies #[trigger] planted_at(s1, self@, a, b, c) by {}
        }
        let mut xc: usize = 2;
        while xc < CHUNK_WIDTH - 2
            invariant
                2 <= xc <= CHUNK_WIDTH - 2,
                self.wf(),
                self.coords() == old(self).coords(),
                grown_above(s1, self@, SURFACE_LEVEL + 1),
                forall|a: int, b: int, c: int|
                    in_chunk(a, b, c) && b <= SURFACE_LEVEL ==> #[trigger] cell(s1, a, b, c) == fresh_block(terrain_type(b)),
                rooted0 ==> trunks_rooted(self@),
                next_tree_id >= 1,
                forall|a: int, b: int, c: int| in_chunk(a, b, c) ==> #[trigger] planted_at(s1, self@, a, b, c),
            decreases CHUNK_WIDTH - xc,
        {
            let mut zc: usize = 2;
            while zc < CHUNK_DEPTH - 2
                invariant
                    2 <= xc < CHUNK_WIDTH - 2,
                    2 <= zc <= CHUNK_DEPTH - 2,
                    self.wf(),
                    self.coords() == old(self).coords(),
                    grown_above(s1, self@, SURFACE_LEVEL + 1),
                    forall|a: int, b: int, c: int|
                        in_chunk(a, b, c) && b <= SURFACE_LEVEL ==> #[trigger] cell(s1, a, b, c) == fresh_block(terrain_type(b)),
                    rooted0 ==> trunks_rooted(self@),
                    next_tree_id >= 1,
                    forall|a: int, b: int, c: int| in_chunk(a, b, c) ==> #[trigger] planted_at(s1, self@, a, b, c),
                decreases CHUNK_DEPTH - zc,
            {
                if self.tree_site(xc, zc) {
                    if random_ratio(&mut rng, 1, 50) {
                        let ghost s2 = self@;
                        self.place_tree(xc, SURFACE_LEVEL + 1, zc, next_tree_id, &mut rng);
                        proof {
                            lemma_grown_trans(s1, s2, self@, SURFACE_LEVEL + 1);
                            let h = choose|h: int| 3 <= h <= 5 && #[trigger] tree_grown(
                                s2,
                                self@,
                                xc as int,
                                (SURFACE_LEVEL + 1) as int,
                                zc as int,
                                next_tree_id,
                                h,
                            );
                            lemma_planted_step(s1, s2, self@, xc as int, zc as int, next_tree_id, h);
                        }
                        next_tree_id = Self::next_tree_id(next_tree_id);
                    }
                }
                zc = zc + 1;
            }
            xc = xc + 1;
        }
        proof {
            assert forall|a: int, b: int, c: int| in_chunk(a, b, c) && b > SURFACE_LEVEL implies grown_from(
                    old(self).at(a, b, c),
                    #[trigger] self.at(a, b, c),
                ) by {
                assert(base_filled(s0, s1, 256, a, b, c));
                assert(grown_from(cell(s1, a, b, c), cell(self@, a, b, c)));
            }
            assert forall|a: int, b: int, c: int| in_chunk(a, b, c) && b <= SURFACE_LEVEL implies #[trigger] self.at(a, b, c)
                    == fresh_block(terrain_type(b)) by {
                assert(grown_from(cell(s1, a, b, c), cell(self@, a, b, c)));
            }
            assert forall|a: int, b: int, c: int| in_chunk(a, b, c) && b > SURFACE_LEVEL implies #[trigger] planted_at(
                old(self)@, self@, a, b, c) by {
                assert(base_filled(s0, s1, 256, a, b, c));
                assert(planted_at(s1, self@, a, b, c));
            }
        }
    }

    /// Writes the terrain layers of one column, up to the surface.
    fn fill_column(&mut self, x: usize, z: usize, Ghost(s0): Ghost<Seq<Block>>)
        requires
            x < CHUNK_WIDTH,
            z < CHUNK_DEPTH,
            old(self).wf(),
            forall|a: int, b: int, c: int|
                in_chunk(a, b, c) ==> #[trigger] base_filled(s0, old(self)@, column_order(x as int, z as int), a, b, c),
        ensures
            final(self).wf(),
            final(self).coords() == old(self).coords(),
            forall|a: int, b: int, c: int|
                in_chunk(a, b, c) ==> #[trigger] base_filled(s0, final(self)@, column_order(x as int, z as int) + 1, a, b, c),
    {
        let ghost s1 = self@;
        let mut y: usize = 0;
        while y < CHUNK_HEIGHT
            invariant
                x < CHUNK_WIDTH,
                z < CHUNK_DEPTH,
                y <= CHUNK_HEIGHT,
                self.wf(),
                self.coords() == old(self).coords(),
                forall|a: int, b: int, c: int|
                    in_chunk(a, b, c) ==> #[trigger] cell(self@, a, b, c) == if a == x && c == z && b < y && b <= SURFACE_LEVEL {
                        fresh_block(terrain_type(b))
                    } else {
                        cell(s1, a, b, c)
                    },
            decreases CHUNK_HEIGHT - y,
        {
            let ghost s2 = self@;
            if y == 0 {
                self.set_block(x, y, z, BlockType::Bedrock);
            } else if y < SURFACE_LEVEL {
                self.set_block(x, y, z, BlockType::Dirt);
            } else if y == SURFACE_LEVEL {
                self.set_block(x, y, z, BlockType::Grass);
            }
            proof {
                assert forall|a: int, b: int, c: int| in_chunk(a, b, c) implies #[trigger] cell(self@, a, b, c) == if a == x && c == z && b < y + 1 && b <= SURFACE_LEVEL {
                        fresh_block(terrain_type(b))
                    } else {
                        cell(s1, a, b, c)
                    } by {
                    lemma_index_bounds(a, b, c);
                    if block_index(a, b, c) == block_index(x as int, y as int, z as int) {
                        lemma_index_injective(a, b, c, x as int, y as int, z as int);
                    }
                    assert(cell(s2, a, b, c) == if a == x && c == z && b < y && b <= SURFACE_LEVEL {
                        fresh_block(terrain_type(b))
                    } else {
                        cell(s1, a, b, c)
                    });
                }
            }
            y = y + 1;
        }
        proof {
            assert forall|a: int, b: int, c: int| in_chunk(a, b, c) implies #[trigger] base_filled(s0, self@, column_order(x as int, z as int) + 1, a, b, c) by {
                assert(base_filled(s0, s1, column_order(x as int, z as int), a, b, c));
                assert(cell(self@, a, b, c) == if a == x && c == z && b < CHUNK_HEIGHT && b <= SURFACE_LEVEL {
                        fresh_block(terrain_type(b))
                    } else {
                        cell(s1, a, b, c)
                    });
            }
        }
    }

    /// Recomputes the sky light of the whole chunk: blocks that see the sky
    /// and let light through get full light, which then spreads through
    /// transparent blocks, one level darker per step.  Opaque blocks end up
    /// dark.
    pub fn calculate_sky_light(&mut self)
        requires
            old(self).wf(),
        ensures
            final(self).wf(),
            final(self).coords() == old(self).coords(),
            same_but_sky(old(self)@, final(self)@),
            sky_light_settled(final(self)@),
    {
        let ghost base = self@;
        let mut i: usize = 0;
        while i < CHUNK_VOLUME
            invariant
                self.wf(),
                self.coords() == old(self).coords(),
                same_but_sky(base, self@),
                forall|j: int| 0 <= j < i ==> (#[trigger] self@[j]).sky_light == 0,
            decreases CHUNK_VOLUME - i,
        {
            let ghost s1 = self@;
            self.set_sky_at(i, 0);
            proof {
                assert forall|k: int| 0 <= k < base.len() implies {
                    &&& (#[trigger] base[k]).block_type == self@[k].block_type
                    &&& base[k].tree_id == self@[k].tree_id
                    &&& base[k].block_light == self@[k].block_light
                } by {
                    assert(base[k].block_type == s1[k].block_type);
                }
            }
            i = i + 1;
        }
        let mut queue: VecDeque<(usize, usize, usize)> = VecDeque::new();
        proof {
            assert forall|x: int, y: int, z: int| in_chunk(x, y, z) implies #[trigger] seed_at(self@, queue@, 0, x, y, z) by {
                lemma_index_bounds(x, y, z);
            }
        }
        let mut x: usize = 0;
        while x < CHUNK_WIDTH
            invariant
                x <= CHUNK_WIDTH,
                self.coords() == old(self).coords(),
                seed_inv(base, self@, queue@, column_order(x as int, 0)),
            decreases CHUNK_WIDTH - x,
        {
            let mut z: usize = 0;
            while z < CHUNK_DEPTH
                invariant
                    x < CHUNK_WIDTH,
                    z <= CHUNK_DEPTH,
                    self.coords() == old(self).coords(),
                    seed_inv(base, self@, queue@, column_order(x as int, z as int)),
                decreases CHUNK_DEPTH - z,
            {
                self.seed_column(x, z, &mut queue, Ghost(base));
                z = z + 1;
            }
            x = x + 1;
        }
        proof {
            lemma_seed_to_flood(base, self@, queue@);
        }
        while queue.len() > 0
            invariant
                self.coords() == old(self).coords(),
                flood_inv(base, self@, queue@, nowhere()),
            decreases darkness(self@), queue@.len(),
        {
            proof {
                lemma_pop(base, self@, queue@);
            }
            let ghost d0 = darkness(self@);
            let ghost len0 = queue@.len();
            let (x, y, z) = queue.pop_front().unwrap();
            let c = self.blocks[Self::index_of(x, y, z)].sky_light;
            let level = c.saturating_sub(1);
            if level > 0 {
                self.spread_around(&mut queue, x, y, z, level, Ghost(base));
            }
            proof {
                let p = (x as int, y as int, z as int);
                lemma_release(base, self@, queue@, p);
            }
        }
        proof {
            lemma_settled(base, self@, queue@);
        }
    }

    /// Passes light of level `level + 1` at (x, y, z) on to its six neighbours.
    fn spread_around(
        &mut self,
        queue: &mut VecDeque<(usize, usize, usize)>,
        x: usize,
        y: usize,
        z: usize,
        level: u8,
        Ghost(base): Ghost<Seq<Block>>,
    )
        requires
            in_chunk(x as int, y as int, z as int),
            flood_inv(base, old(self)@, old(queue)@, (x as int, y as int, z as int)),
            transparent_at(old(self)@, x as int, y as int, z as int),
            level as int == light(old(self)@, x as int, y as int, z as int) - 1,
        ensures
            final(self).coords() == old(self).coords(),
            flood_inv(base, final(self)@, final(queue)@, (x as int, y as int, z as int)),
            spreads_from(final(self)@, x as int, y as int, z as int),
            (final(self)@ == old(self)@ && final(queue)@ == old(queue)@) || darkness(final(self)@)
                < darkness(old(self)@),
    {
        let ghost p = (x as int, y as int, z as int);
        let ghost l = light(self@, x as int, y as int, z as int);
        let ghost s0 = self@;
        if x > 0 {
            self.spread_to(queue, x - 1, y, z, level, Ghost(base), Ghost(p));
        }
        let ghost s1 = self@;
        self.spread_to(queue, x + 1, y, z, level, Ghost(base), Ghost(p));
        let ghost s2 = self@;
        if y > 0 {
            self.spread_to(queue, x, y - 1, z, level, Ghost(base), Ghost(p));
        }
        let ghost s3 = self@;
        self.spread_to(queue, x, y + 1, z, level, Ghost(base), Ghost(p));
        let ghost s4 = self@;
        if z > 0 {
            self.spread_to(queue, x, y, z - 1, level, Ghost(base), Ghost(p));
        }
        let ghost s5 = self@;
        self.spread_to(queue, x, y, z + 1, level, Ghost(base), Ghost(p));
        let ghost s6 = self@;
        proof {
            lemma_grows_trans(s1, s2, s3);
            lemma_grows_trans(s1, s3, s4);
            lemma_grows_trans(s1, s4, s5);
            lemma_grows_trans(s1, s5, s6);
            lemma_grows_trans(s0, s1, s6);
            lemma_grows_trans(s2, s3, s4);
            lemma_grows_trans(s2, s4, s5);
            lemma_grows_trans(s2, s5, s6);
            lemma_grows_trans(s3, s4, s5);
            lemma_grows_trans(s3, s5, s6);
            lemma_grows_trans(s4, s5, s6);
            if x > 0 {
                lemma_reaches_grows(s1, s6, l, x - 1, y as int, z as int);
            }
            lemma_reaches_grows(s2, s6, l, x + 1, y as int, z as int);
            if y > 0 {
                lemma_reaches_grows(s3, s6, l, x as int, y - 1, z as int);
            }
            lemma_reaches_grows(s4, s6, l, x as int, y + 1, z as int);
            if z > 0 {
                lemma_reaches_grows(s5, s6, l, x as int, y as int, z - 1);
            }
        }
    }

    /// Raises the sky light at the local position (nx, ny, nz) to `level`
    /// and queues it, when it lies in the chunk, lets light through and is
    /// darker than `level`.
    fn spread_to(
        &mut self,
        queue: &mut VecDeque<(usize, usize, usize)>,
        nx: usize,
        ny: usize,
        nz: usize,
        level: u8,
        Ghost(base): Ghost<Seq<Block>>,
        Ghost(p): Ghost<(int, int, int)>,
    )
        requires
            flood_inv(base, old(self)@, old(queue)@, p),
            transparent_at(old(self)@, p.0, p.1, p.2),
            level as int == light(old(self)@, p.0, p.1, p.2) - 1,
            adjacent(p, (nx as int, ny as int, nz as int)),
        ensures
            final(self).coords() == old(self).coords(),
            flood_inv(base, final(self)@, final(queue)@, p),
            light(final(self)@, p.0, p.1, p.2) == light(old(self)@, p.0, p.1, p.2),
            forall|x: int, y: int, z: int|
                in_chunk(x, y, z) ==> #[trigger] light(final(self)@, x, y, z) >= light(
                    old(self)@,
                    x,
                    y,
                    z,
                ),
            reaches(final(self)@, level + 1, nx as int, ny as int, nz as int),
            grows(old(self)@, final(self)@),
            darkness(final(self)@) <= darkness(old(self)@),
            (final(self)@ == old(self)@ && final(queue)@ == old(queue)@) || darkness(final(self)@)
                < darkness(old(self)@),
    {
        if nx < CHUNK_WIDTH && ny < CHUNK_HEIGHT && nz < CHUNK_DEPTH {
            let i = Self::index_of(nx, ny, nz);
            let b = self.blocks[i];
            if b.is_transparent() && b.sky_light < level {
                let ghost s0 = self@;
                let ghost q0 = queue@;
                assert(flood_at(s0, q0, p, nx as int, ny as int, nz as int));
                assert(flood_at(s0, q0, p, p.0, p.1, p.2));
                self.set_sky_at(i, level);
                queue.push_back((nx, ny, nz));
                proof {
                    lemma_spread_step(base, s0, q0, p, (nx as int, ny as int, nz as int), level as int);
                    lemma_darkness_update(s0, i as int, Block { sky_light: level, ..s0[i as int] });
                }
            }
        }
    }


    /// Lights the top of one column down to its first opaque block and
    /// queues the lit blocks.
    fn seed_column(
        &mut self,
        x: usize,
        z: usize,
        queue: &mut VecDeque<(usize, usize, usize)>,
        Ghost(base): Ghost<Seq<Block>>,
    )
        requires
            x < CHUNK_WIDTH,
            z < CHUNK_DEPTH,
            seed_inv(base, old(self)@, old(queue)@, column_order(x as int, z as int)),
        ensures
            final(self).coords() == old(self).coords(),
            seed_inv(base, final(self)@, final(queue)@, column_order(x as int, z as int) + 1),
    {
        let ghost s0 = self@;
        let ghost q0 = queue@;
        assert forall|b: int| 0 <= b < CHUNK_HEIGHT implies light(s0, x as int, b, z as int) == 0 by {
            assert(seed_at(s0, q0, column_order(x as int, z as int), x as int, b, z as int));
        }
        let mut y: usize = CHUNK_HEIGHT;
        let mut open = true;
        while open && y > 0
            invariant
                x < CHUNK_WIDTH,
                z < CHUNK_DEPTH,
                y <= CHUNK_HEIGHT,
                self.coords() == old(self).coords(),
                self@.len() == CHUNK_VOLUME,
                same_but_sky(base, self@),
                seed_inv(base, s0, q0, column_order(x as int, z as int)),
                forall|j: int| 0 <= j < queue@.len() ==> #[trigger] queued_ok(self@, queue@[j]),
                forall|j: int| 0 <= j < q0.len() ==> #[trigger] queue@[j] == q0[j],
                q0.len() <= queue@.len(),
                forall|a: int, b: int, c: int|
                    in_chunk(a, b, c) && (a != x || c != z) ==> #[trigger] cell(self@, a, b, c) == cell(s0, a, b, c),
                forall|b: int|
                    0 <= b < CHUNK_HEIGHT ==> {
                        &&& b >= y ==> transparent_at(self@, x as int, b, z as int) && light(self@, x as int, b, z as int) == MAX_LIGHT && queued(queue@, x as int, b, z as int)
                        &&& b < y ==> light(self@, x as int, b, z as int) == 0
                        &&& (#[trigger] cell(self@, x as int, b, z as int)).block_type == cell(s0, x as int, b, z as int).block_type
                    },
                !open ==> y > 0 && !transparent_at(self@, x as int, y - 1, z as int),
            decreases 2 * y + (if open { 1int } else { 0int }),
        {
            let i = Self::index_of(x, y - 1, z);
            if self.blocks[i].is_transparent() {
                let ghost s1 = self@;
                let ghost q1 = queue@;
                self.set_sky_at(i, MAX_LIGHT);
                queue.push_back((x, y - 1, z));
                proof {
                    lemma_index_bounds(x as int, y - 1, z as int);
                    assert forall|a: int, b: int, c: int|
                        in_chunk(a, b, c) && (a, b, c) != (x as int, y - 1, z as int) implies #[trigger] cell(self@, a, b, c) == cell(s1, a, b, c) by {
                        lemma_index_bounds(a, b, c);
                        if block_index(a, b, c) == i {
                            lemma_index_injective(a, b, c, x as int, y - 1, z as int);
                        }
                    }
                    assert(queue@[q1.len() as int] == (x, (y - 1) as usize, z));
                    assert forall|j: int| 0 <= j < queue@.len() implies #[trigger] queued_ok(self@, queue@[j]) by {
                        if j < q1.len() {
                            assert(queued_ok(s1, q1[j]));
                            assert(queue@[j] == q1[j]);
                            let e = q1[j];
                            assert(in_chunk(e.0 as int, e.1 as int, e.2 as int));
                            assert(cell(self@, e.0 as int, e.1 as int, e.2 as int).block_type == cell(s1, e.0 as int, e.1 as int, e.2 as int).block_type);
                        }
                    }
                    assert forall|b: int| 0 <= b < CHUNK_HEIGHT && b >= y implies queued(queue@, x as int, b, z as int) by {
                        assert(cell(s1, x as int, b, z as int).block_type == cell(s0, x as int, b, z as int).block_type);
                        assert(queued(q1, x as int, b, z as int));
                        let j = choose|j: int|
                            0 <= j < q1.len() && #[trigger] q1[j] == (x, b as usize, z);
                        assert(queue@[j] == q1[j]);
                    }
                    assert(queued(queue@, x as int, y - 1, z as int));
                    assert forall|k: int| 0 <= k < base.len() implies {
                        &&& (#[trigger] base[k]).block_type == self@[k].block_type
                        &&& base[k].tree_id == self@[k].tree_id
                        &&& base[k].block_light == self@[k].block_light
                    } by {
                        assert(base[k].block_type == s1[k].block_type);
                    }
                }
                y = y - 1;
            } else {
                open = false;
            }
        }
        proof {
            lemma_seed_column_done(base, s0, q0, self@, queue@, x as int, z as int, y as int);
        }
    }

    fn set_sky_at(&mut self, i: usize, v: u8)
        requires
            old(self).wf(),
            i < CHUNK_VOLUME,
        ensures
            final(self).wf(),
            final(self).coords() == old(self).coords(),
            final(self)@ == old(self)@.update(i as int, Block { sky_light: v, ..old(self)@[i as int] }),
    {
        let mut b = self.blocks[i];
        b.sky_light = v;
        self.blocks.set(i, b);
    }
}

} // verus!
