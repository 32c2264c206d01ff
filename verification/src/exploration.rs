//! Choosing where an individual explores next: the nearest ring of knowledge chunks
//! around it that holds an unexplored, reachable tile, or else a short wander.
use vstd::prelude::*;
use crate::mind::{
    chunk_index, spec_chunk_index, spec_on_cooldown, Mind, FailedExploration, KNOWLEDGE_CHUNK_SIZE,
};
use crate::world::Grid;

verus! {

pub open spec fn abs_int(v: int) -> int {
    if v < 0 { -v } else { v }
}

/// Chunk `p` lies in the top or bottom row of the square ring of radius `ring` around
/// `(cx, cy)`.
pub open spec fn ring_row(cx: int, cy: int, ring: int, p: (u32, u32)) -> bool {
    abs_int(p.1 - cy) == ring && abs_int(p.0 - cx) <= ring
}

/// Chunk `p` lies in the left or right column of the ring, corners excluded.
pub open spec fn ring_column(cx: int, cy: int, ring: int, p: (u32, u32)) -> bool {
    abs_int(p.0 - cx) == ring && abs_int(p.1 - cy) < ring
}

/// Chunk `p` is inside a `width` by `height` chunk grid and at Chebyshev distance `ring`
/// from `(cx, cy)`.
pub open spec fn on_ring(cx: int, cy: int, ring: int, width: int, height: int, p: (u32, u32)) -> bool {
    &&& p.0 < width
    &&& p.1 < height
    &&& (ring_row(cx, cy, ring, p) || ring_column(cx, cy, ring, p))
}

/// The order in which a ring lists its chunks: the two rows first, by column and then
/// by row; then the two columns, by row and then by column.
pub open spec fn ring_before(cx: int, cy: int, ring: int, a: (u32, u32), b: (u32, u32)) -> bool {
    if ring_row(cx, cy, ring, a) && ring_row(cx, cy, ring, b) {
        a.0 < b.0 || (a.0 == b.0 && a.1 < b.1)
    } else if ring_row(cx, cy, ring, a) {
        true
    } else if ring_row(cx, cy, ring, b) {
        false
    } else {
        a.1 < b.1 || (a.1 == b.1 && a.0 < b.0)
    }
}

/// The chunks of the ring of radius `ring` around chunk `(center_x, center_y)` that lie
/// inside a `chunks_wide` by `chunks_high` grid, each once, in ring order.
pub fn ring_perimeter(center_x: i32, center_y: i32, ring: i32, chunks_wide: i32, chunks_high: i32) -> (r: Vec<
    (u32, u32),
>)
    requires
        ring > 0,
        center_x - ring >= i32::MIN,
        center_x + ring <= i32::MAX,
        center_y - ring >= i32::MIN,
        center_y + ring <= i32::MAX,
    ensures
        forall|p: (u32, u32)| #[trigger] r@.contains(p) <==> on_ring(
            center_x as int,
            center_y as int,
            ring as int,
            chunks_wide as int,
            chunks_high as int,
            p,
        ),
        forall|i: int, j: int|
            0 <= i < j < r@.len() ==> ring_before(center_x as int, center_y as int, ring as int, r@[i], r@[j]),
{
    let ghost gcx = center_x as int;
    let ghost gcy = center_y as int;
    let ghost gr = ring as int;
    let ghost gw = chunks_wide as int;
    let ghost gh = chunks_high as int;
    let cx = center_x as i64;
    let cy = center_y as i64;
    let r = ring as i64;
    let w = chunks_wide as i64;
    let h = chunks_high as i64;
    let mut chunks: Vec<(u32, u32)> = Vec::new();
    let mut dx: i64 = -r;
    while dx <= r
        invariant
            cx == gcx,
            cy == gcy,
            r == gr,
            w == gw,
            h == gh,
            r > 0,
            i32::MIN <= cx <= i32::MAX,
            i32::MIN <= cy <= i32::MAX,
            r <= i32::MAX,
            i32::MIN <= w <= i32::MAX,
            i32::MIN <= h <= i32::MAX,
            -r <= dx <= r + 1,
            forall|p: (u32, u32)| #[trigger] chunks@.contains(p) <==> (on_ring(gcx, gcy, gr, gw, gh, p)
                && ring_row(gcx, gcy, gr, p) && p.0 < cx + dx),
            forall|i: int, j: int| 0 <= i < j < chunks@.len() ==> ring_before(gcx, gcy, gr, chunks@[i], chunks@[j]),
            forall|i: int| 0 <= i < chunks@.len() ==> ring_row(gcx, gcy, gr, #[trigger] chunks@[i]) && chunks@[i].0 < cx + dx,
        decreases r + 1 - dx,
    {
        let x = cx + dx;
        let y0 = cy - r;
        let y1 = cy + r;
        let ghost before = chunks@;
        if x >= 0 && y0 >= 0 && x < w && y0 < h {
            chunks.push((x as u32, y0 as u32));
        }
        let ghost middle = chunks@;
        if x >= 0 && y1 >= 0 && x < w && y1 < h {
            chunks.push((x as u32, y1 as u32));
        }
        proof {
            assert forall|p: (u32, u32)| #[trigger] chunks@.contains(p) <==> (on_ring(gcx, gcy, gr, gw, gh, p)
                && ring_row(gcx, gcy, gr, p) && p.0 < cx + dx + 1) by {
                if chunks@.contains(p) {
                    let k = choose|k: int| 0 <= k < chunks@.len() && chunks@[k] == p;
                    if k < before.len() {
                        assert(before[k] == p);
                        assert(before.contains(p));
                    }
                }
                if on_ring(gcx, gcy, gr, gw, gh, p) && ring_row(gcx, gcy, gr, p) && p.0 < cx + dx + 1 {
                    if p.0 < cx + dx {
                        assert(before.contains(p));
                        let k = choose|k: int| 0 <= k < before.len() && before[k] == p;
                        assert(chunks@[k] == p);
                    } else if p.1 == y0 {
                        assert(middle.last() == p);
                        assert(chunks@[middle.len() - 1] == p);
                    } else {
                        assert(p.1 == y1);
                        assert(chunks@.last() == p);
                    }
                }
            }
        }
        dx += 1;
    }
    let ghost rows = chunks@;
    let mut dy: i64 = -r + 1;
    while dy < r
        invariant
            cx == gcx,
            cy == gcy,
            r == gr,
            w == gw,
            h == gh,
            r > 0,
            i32::MIN <= cx <= i32::MAX,
            i32::MIN <= cy <= i32::MAX,
            r <= i32::MAX,
            i32::MIN <= w <= i32::MAX,
            i32::MIN <= h <= i32::MAX,
            -r + 1 <= dy <= r,
            forall|p: (u32, u32)| #[trigger] chunks@.contains(p) <==> (on_ring(gcx, gcy, gr, gw, gh, p) && (
            ring_row(gcx, gcy, gr, p) || p.1 < cy + dy)),
            forall|i: int, j: int| 0 <= i < j < chunks@.len() ==> ring_before(gcx, gcy, gr, chunks@[i], chunks@[j]),
            forall|i: int| 0 <= i < chunks@.len() ==> ring_row(gcx, gcy, gr, #[trigger] chunks@[i]) || chunks@[i].1 < cy + dy,
        decreases r - dy,
    {
        let y = cy + dy;
        let x0 = cx - r;
        let x1 = cx + r;
        let ghost before = chunks@;
        if x0 >= 0 && y >= 0 && x0 < w && y < h {
            chunks.push((x0 as u32, y as u32));
        }
        let ghost middle = chunks@;
        if x1 >= 0 && y >= 0 && x1 < w && y < h {
            chunks.push((x1 as u32, y as u32));
        }
        proof {
            assert forall|p: (u32, u32)| #[trigger] chunks@.contains(p) <==> (on_ring(gcx, gcy, gr, gw, gh, p) && (
            ring_row(gcx, gcy, gr, p) || p.1 < cy + dy + 1)) by {
                if chunks@.contains(p) {
                    let k = choose|k: int| 0 <= k < chunks@.len() && chunks@[k] == p;
                    if k < before.len() {
                        assert(before[k] == p);
                        assert(before.contains(p));
                    }
                }
                if on_ring(gcx, gcy, gr, gw, gh, p) && (ring_row(gcx, gcy, gr, p) || p.1 < cy + dy + 1) {
                    if ring_row(gcx, gcy, gr, p) || p.1 < cy + dy {
                        assert(before.contains(p));
                        let k = choose|k: int| 0 <= k < before.len() && before[k] == p;
                        assert(chunks@[k] == p);
                    } else if p.0 == x0 {
                        assert(middle.last() == p);
                        assert(chunks@[middle.len() - 1] == p);
                    } else {
                        assert(p.0 == x1);
                        assert(chunks@.last() == p);
                    }
                }
            }
        }
        dy += 1;
    }
    chunks
}

/// Tile `(x, y)` may be an exploration destination: walkable and, when a region is
/// required, inside it.
pub open spec fn tile_qualifies(world: Grid, x: int, y: int, required_region: Option<u32>) -> bool {
    &&& world.walkable(x, y)
    &&& match required_region {
        Some(region) => world.spec_region_id_at(x, y) == Some(region),
        None => true,
    }
}

/// Tile `(x, y)` lies in knowledge chunk `(chunk_x, chunk_y)` and inside the world.
pub open spec fn in_chunk(world: Grid, chunk_x: int, chunk_y: int, x: int, y: int) -> bool {
    &&& chunk_x * 8 <= x < chunk_x * 8 + 8
    &&& chunk_y * 8 <= y < chunk_y * 8 + 8
    &&& x < world.width
    &&& y < world.height
}

/// `(ax, ay)` comes before `(bx, by)` in row-major order.
pub open spec fn row_major_before(ax: int, ay: int, bx: int, by: int) -> bool {
    ay < by || (ay == by && ax < bx)
}

/// `p` is the first qualifying tile of the chunk in row-major order.
pub open spec fn first_in_chunk(
    world: Grid,
    chunk_x: int,
    chunk_y: int,
    required_region: Option<u32>,
    p: (u32, u32),
) -> bool {
    &&& in_chunk(world, chunk_x, chunk_y, p.0 as int, p.1 as int)
    &&& tile_qualifies(world, p.0 as int, p.1 as int, required_region)
    &&& forall|x: int, y: int|
        in_chunk(world, chunk_x, chunk_y, x, y) && row_major_before(x, y, p.0 as int, p.1 as int)
            ==> !#[trigger] tile_qualifies(world, x, y, required_region)
}

/// Some tile of the chunk qualifies.
pub open spec fn chunk_has_destination(world: Grid, chunk_x: int, chunk_y: int, required_region: Option<u32>) -> bool {
    exists|x: int, y: int| in_chunk(world, chunk_x, chunk_y, x, y) && #[trigger] tile_qualifies(world, x, y, required_region)
}

/// The first qualifying tile of knowledge chunk `(chunk_x, chunk_y)` in row-major order.
pub fn walkable_in_chunk(world: &Grid, chunk_x: u32, chunk_y: u32, required_region: Option<u32>) -> (r: Option<
    (u32, u32),
>)
    requires
        world.wf(),
    ensures
        r matches Some(p) ==> first_in_chunk(*world, chunk_x as int, chunk_y as int, required_region, p),
        r is None <==> !chunk_has_destination(*world, chunk_x as int, chunk_y as int, required_region),
{
    let size = KNOWLEDGE_CHUNK_SIZE as u64;
    let start_x = chunk_x as u64 * size;
    let start_y = chunk_y as u64 * size;
    let end_x = if start_x + size < world.width as u64 { start_x + size } else { world.width as u64 };
    let end_y = if start_y + size < world.height as u64 { start_y + size } else { world.height as u64 };
    let mut y = start_y;
    while y < end_y
        invariant
            start_x == chunk_x * 8,
            start_y == chunk_y * 8,
            end_x == if start_x + 8 < world.width { start_x + 8 } else { world.width as int },
            end_y == if start_y + 8 < world.height { start_y + 8 } else { world.height as int },
            start_y <= y,
            y <= end_y || start_y >= end_y,
            forall|tx: int, ty: int|
                in_chunk(*world, chunk_x as int, chunk_y as int, tx, ty) && ty < y
                    ==> !#[trigger] tile_qualifies(*world, tx, ty, required_region),
        decreases end_y - y,
    {
        let mut x = start_x;
        while x < end_x
            invariant
                start_x == chunk_x * 8,
                start_y == chunk_y * 8,
                end_x == if start_x + 8 < world.width { start_x + 8 } else { world.width as int },
                end_y == if start_y + 8 < world.height { start_y + 8 } else { world.height as int },
                start_y <= y < end_y,
                start_x <= x,
                x <= end_x || start_x >= end_x,
                forall|tx: int, ty: int|
                    in_chunk(*world, chunk_x as int, chunk_y as int, tx, ty) && (ty < y || (ty == y && tx < x))
                        ==> !#[trigger] tile_qualifies(*world, tx, ty, required_region),
            decreases end_x - x,
        {
            let tx = x as u32;
            let ty = y as u32;
            let walkable = world.is_walkable_at(tx, ty);
            let in_region = match required_region {
                Some(region_id) => match world.region_id_at(tx, ty) {
                    Some(id) => id == region_id,
                    None => false,
                },
                None => true,
            };
            if walkable && in_region {
                assert(in_chunk(*world, chunk_x as int, chunk_y as int, tx as int, ty as int));
                assert(tile_qualifies(*world, tx as int, ty as int, required_region));
                return Some((tx, ty));
            }
            x += 1;
        }
        y += 1;
    }
    None
}

/// The wander offsets tried, in order, from the one that `entity_id` selects.
pub open spec fn wander_offset(i: int) -> (int, int) {
    if i == 0 {
        (8, 0)
    } else if i == 1 {
        (0, 8)
    } else if i == 2 {
        (-8, 0)
    } else if i == 3 {
        (0, -8)
    } else if i == 4 {
        (6, 6)
    } else if i == 5 {
        (-6, 6)
    } else if i == 6 {
        (6, -6)
    } else {
        (-6, -6)
    }
}

/// The `k`-th wander point that `entity_id` tries from `origin`.
pub open spec fn wander_point(origin: (u32, u32), entity_id: u32, k: int) -> (int, int) {
    let offset = wander_offset((entity_id % 8 + k) % 8);
    (origin.0 + offset.0, origin.1 + offset.1)
}

/// The `k`-th wander point lies in the world, qualifies, and its chunk is not cooling down.
pub open spec fn wander_ok(
    failures: Seq<FailedExploration>,
    world: Grid,
    origin: (u32, u32),
    entity_id: u32,
    tick: u64,
    required_region: Option<u32>,
    k: int,
) -> bool {
    let p = wander_point(origin, entity_id, k);
    &&& 0 <= p.0 < world.width
    &&& 0 <= p.1 < world.height
    &&& tile_qualifies(world, p.0, p.1, required_region)
    &&& !spec_on_cooldown(failures, spec_chunk_index(world.width, p.0 as u32, p.1 as u32) as u32, tick)
}

/// The first acceptable wander point from the `k`-th on.
pub open spec fn wander_from(
    failures: Seq<FailedExploration>,
    world: Grid,
    origin: (u32, u32),
    entity_id: u32,
    tick: u64,
    required_region: Option<u32>,
    k: int,
) -> Option<(u32, u32)>
    decreases 8 - k,
{
    if k >= 8 || k < 0 {
        None
    } else if wander_ok(failures, world, origin, entity_id, tick, required_region, k) {
        let p = wander_point(origin, entity_id, k);
        Some((p.0 as u32, p.1 as u32))
    } else {
        wander_from(failures, world, origin, entity_id, tick, required_region, k + 1)
    }
}

fn wander_offset_exec(i: usize) -> (r: (i64, i64))
    requires
        i < 8,
    ensures
        r.0 == wander_offset(i as int).0,
        r.1 == wander_offset(i as int).1,
{
    if i == 0 {
        (8, 0)
    } else if i == 1 {
        (0, 8)
    } else if i == 2 {
        (-8, 0)
    } else if i == 3 {
        (0, -8)
    } else if i == 4 {
        (6, 6)
    } else if i == 5 {
        (-6, 6)
    } else if i == 6 {
        (6, -6)
    } else {
        (-6, -6)
    }
}

/// A nearby tile to wander to when no unexplored chunk is reachable: the first of eight
/// fixed offsets, taken in a rotation that `entity_id` selects, that lies in the world, is
/// walkable, lies in `required_region` when one is given, and whose chunk is not cooling
/// down.
pub fn deterministic_wander_target(
    mind: &Mind,
    world: &Grid,
    origin: (u32, u32),
    entity_id: u32,
    tick: u64,
    required_region: Option<u32>,
) -> (r: Option<(u32, u32)>)
    requires
        world.wf(),
    ensures
        r == wander_from(mind.memory.failed_exploration@, *world, origin, entity_id, tick, required_region, 0),
{
    let ghost failures = mind.memory.failed_exploration@;
    let start = (entity_id % 8) as usize;
    let mut k: usize = 0;
    while k < 8
        invariant
            0 <= k <= 8,
            start == entity_id % 8,
            failures == mind.memory.failed_exploration@,
            world.wf(),
            wander_from(failures, *world, origin, entity_id, tick, required_region, 0) == wander_from(
                failures,
                *world,
                origin,
                entity_id,
                tick,
                required_region,
                k as int,
            ),
        decreases 8 - k,
    {
        let offset = wander_offset_exec((start + k) % 8);
        let x = origin.0 as i64 + offset.0;
        let y = origin.1 as i64 + offset.1;
        if x >= 0 && y >= 0 && x < world.width as i64 && y < world.height as i64 {
            let tx = x as u32;
            let ty = y as u32;
            let walkable = world.is_walkable_at(tx, ty);
            let in_region = match required_region {
                Some(region_id) => match world.region_id_at(tx, ty) {
                    Some(id) => id == region_id,
                    None => false,
                },
                None => true,
            };
            let target_chunk = chunk_index(world, tx, ty);
            if walkable && in_region && !mind.memory.exploration_on_cooldown(target_chunk, tick) {
                return Some((tx, ty));
            }
        }
        k += 1;
    }
    None
}

/// Multiplier that spreads the chunk order differently for each individual.
pub const CHUNK_ORDER_SPREAD: u32 = 2_654_435_761;

/// Knowledge chunks across `size` tiles.
pub open spec fn chunks_across(size: u32) -> int {
    (size + 7) / 8
}

/// The order key of chunk `c` for `entity_id`: its row-major index shifted by a
/// per-individual offset, both wrapping in `u32`.
pub open spec fn chunk_key(c: (u32, u32), chunks_wide: int, entity_id: u32) -> u32 {
    vstd::wrapping::u32_specs::wrapping_add(
        (c.1 * chunks_wide + c.0) as u32,
        vstd::wrapping::u32_specs::wrapping_mul(entity_id, CHUNK_ORDER_SPREAD),
    )
}

pub open spec fn min_int(a: int, b: int) -> int {
    if a <= b { a } else { b }
}

pub open spec fn max_int(a: int, b: int) -> int {
    if a >= b { a } else { b }
}

/// The tile whose chunk decides whether chunk `(cx, cy)` counts as already seen: its
/// centre, held inside the world.
pub open spec fn chunk_probe(world: Grid, cx: int, cy: int) -> (int, int) {
    (min_int(cx * 8 + 4, world.width - 1), min_int(cy * 8 + 4, world.height - 1))
}

/// Chunk `c` is worth exploring: not cooling down after a failure, not seen yet, and
/// holding a qualifying tile.
pub open spec fn chunk_eligible(mind: Mind, world: Grid, c: (u32, u32), tick: u64, required_region: Option<u32>) -> bool {
    let probe = chunk_probe(world, c.0 as int, c.1 as int);
    &&& !spec_on_cooldown(
        mind.memory.failed_exploration@,
        (c.1 * chunks_across(world.width) + c.0) as u32,
        tick,
    )
    &&& !mind.memory.known_chunks@.contains(spec_chunk_index(world.width, probe.0 as u32, probe.1 as u32) as u32)
    &&& chunk_has_destination(world, c.0 as int, c.1 as int, required_region)
}

/// The widest ring around the origin chunk that still touches the chunk grid.
pub open spec fn spec_max_ring(world: Grid, origin: (u32, u32)) -> int {
    let ocx = origin.0 / 8;
    let ocy = origin.1 / 8;
    max_int(
        max_int(ocx as int, chunks_across(world.width) - 1 - ocx),
        max_int(ocy as int, chunks_across(world.height) - 1 - ocy),
    )
}

/// Chunk `c` on ring `ring` around the origin chunk is eligible.
pub open spec fn exploration_candidate(mind: Mind, world: Grid, origin: (u32, u32), tick: u64, ring: int, c: (
    u32,
    u32,
)) -> bool {
    &&& 1 <= ring <= spec_max_ring(world, origin)
    &&& on_ring(
        (origin.0 / 8) as int,
        (origin.1 / 8) as int,
        ring,
        chunks_across(world.width),
        chunks_across(world.height),
        c,
    )
    &&& chunk_eligible(mind, world, c, tick, world.spec_region_id_at(origin.0 as int, origin.1 as int))
}

/// Chunk `c` is the one exploration heads for: an eligible chunk on the nearest ring that
/// has one, with the least order key on that ring.
pub open spec fn chosen_chunk(
    mind: Mind,
    world: Grid,
    origin: (u32, u32),
    entity_id: u32,
    tick: u64,
    ring: int,
    c: (u32, u32),
) -> bool {
    &&& exploration_candidate(mind, world, origin, tick, ring, c)
    &&& forall|r2: int, c2: (u32, u32)| r2 < ring ==> !#[trigger] exploration_candidate(mind, world, origin, tick, r2, c2)
    &&& forall|c2: (u32, u32)|
        #[trigger] exploration_candidate(mind, world, origin, tick, ring, c2) ==> chunk_key(
            c,
            chunks_across(world.width),
            entity_id,
        ) <= chunk_key(c2, chunks_across(world.width), entity_id)
}

proof fn lemma_chunk_grid_fits(width: u32, height: u32, cx: u32, cy: u32)
    requires
        width >= 1,
        height >= 1,
        width * height <= u32::MAX,
        cx < chunks_across(width),
        cy < chunks_across(height),
    ensures
        chunks_across(width) <= width,
        chunks_across(height) <= height,
        chunks_across(width) * chunks_across(height) <= u32::MAX,
        0 <= cy * chunks_across(width) + cx < chunks_across(width) * chunks_across(height),
{
    let cw = chunks_across(width);
    let ch = chunks_across(height);
    assert(cw * ch <= width * height) by (nonlinear_arith)
        requires
            0 <= cw <= width,
            0 <= ch <= height,
    ;
    assert(cy * cw + cx < cw * ch) by (nonlinear_arith)
        requires
            0 <= cx < cw,
            0 <= cy < ch,
    ;
    assert(0 <= cy * cw) by (nonlinear_arith)
        requires
            0 <= cy,
            0 <= cw,
    ;
}

fn chunk_key_exec(c: (u32, u32), chunks_wide: u32, chunks_high: u32, entity_id: u32) -> (r: u32)
    requires
        c.0 < chunks_wide,
        c.1 < chunks_high,
        chunks_wide * chunks_high <= u32::MAX,
    ensures
        r == chunk_key(c, chunks_wide as int, entity_id),
{
    assert(c.1 * chunks_wide + c.0 < chunks_wide * chunks_high) by (nonlinear_arith)
        requires
            c.0 < chunks_wide,
            c.1 < chunks_high,
    ;
    assert(0 <= c.1 * chunks_wide) by (nonlinear_arith);
    let index = c.1 * chunks_wide + c.0;
    index.wrapping_add(entity_id.wrapping_mul(CHUNK_ORDER_SPREAD))
}

/// The chunks in non-decreasing order of their key for `entity_id`.
fn sort_chunks_by_key(chunks: Vec<(u32, u32)>, chunks_wide: u32, chunks_high: u32, entity_id: u32) -> (r: Vec<
    (u32, u32),
>)
    requires
        chunks_wide * chunks_high <= u32::MAX,
        forall|i: int| 0 <= i < chunks@.len() ==> (#[trigger] chunks@[i]).0 < chunks_wide && chunks@[i].1 < chunks_high,
    ensures
        forall|p: (u32, u32)| #[trigger] r@.contains(p) <==> chunks@.contains(p),
        forall|i: int, j: int|
            0 <= i <= j < r@.len() ==> chunk_key(r@[i], chunks_wide as int, entity_id) <= chunk_key(
                r@[j],
                chunks_wide as int,
                entity_id,
            ),
{
    let mut sorted: Vec<(u32, u32)> = Vec::new();
    let mut k: usize = 0;
    while k < chunks.len()
        invariant
            chunks_wide * chunks_high <= u32::MAX,
            forall|i: int| 0 <= i < chunks@.len() ==> (#[trigger] chunks@[i]).0 < chunks_wide && chunks@[i].1 < chunks_high,
            0 <= k <= chunks@.len(),
            forall|p: (u32, u32)| #[trigger] sorted@.contains(p) <==> chunks@.subrange(0, k as int).contains(p),
            forall|i: int| 0 <= i < sorted@.len() ==> (#[trigger] sorted@[i]).0 < chunks_wide && sorted@[i].1 < chunks_high,
            forall|i: int, j: int|
                0 <= i <= j < sorted@.len() ==> chunk_key(sorted@[i], chunks_wide as int, entity_id) <= chunk_key(
                    sorted@[j],
                    chunks_wide as int,
                    entity_id,
                ),
        decreases chunks@.len() - k,
    {
        let c = chunks[k];
        let key = chunk_key_exec(c, chunks_wide, chunks_high, entity_id);
        let mut i: usize = 0;
        while i < sorted.len() && chunk_key_exec(sorted[i], chunks_wide, chunks_high, entity_id) <= key
            invariant
                chunks_wide * chunks_high <= u32::MAX,
                forall|i: int| 0 <= i < sorted@.len() ==> (#[trigger] sorted@[i]).0 < chunks_wide && sorted@[i].1 < chunks_high,
                0 <= i <= sorted@.len(),
                forall|j: int| 0 <= j < i ==> chunk_key(#[trigger] sorted@[j], chunks_wide as int, entity_id) <= key,
            decreases sorted@.len() - i,
        {
            i += 1;
        }
        let ghost before = sorted@;
        sorted.insert(i, c);
        proof {
            assert(chunks@.subrange(0, k + 1) =~= chunks@.subrange(0, k as int).push(c));
            assert forall|p: (u32, u32)| #[trigger] sorted@.contains(p) <==> chunks@.subrange(0, k + 1).contains(p) by {
                if sorted@.contains(p) {
                    let m = choose|m: int| 0 <= m < sorted@.len() && sorted@[m] == p;
                    if m < i {
                        assert(before[m] == p);
                        assert(before.contains(p));
                    } else if m > i {
                        assert(before[m - 1] == p);
                        assert(before.contains(p));
                    } else {
                        assert(chunks@.subrange(0, k + 1)[k as int] == p);
                    }
                }
                let prefix = chunks@.subrange(0, k + 1);
                if prefix.contains(p) {
                    let m = choose|m: int| 0 <= m < prefix.len() && prefix[m] == p;
                    if m == k {
                        assert(sorted@[i as int] == p);
                    } else {
                        assert(chunks@.subrange(0, k as int)[m] == p);
                        assert(chunks@.subrange(0, k as int).contains(p));
                        assert(before.contains(p));
                        let n = choose|n: int| 0 <= n < before.len() && before[n] == p;
                        if n < i {
                            assert(sorted@[n] == p);
                        } else {
                            assert(sorted@[n + 1] == p);
                        }
                    }
                }
            }
            assert forall|a: int| 0 <= a < sorted@.len() implies (#[trigger] sorted@[a]).0 < chunks_wide && sorted@[a].1
                < chunks_high by {
                if a < i {
                    assert(sorted@[a] == before[a]);
                } else if a > i {
                    assert(sorted@[a] == before[a - 1]);
                }
            }
            assert forall|a: int, b: int| 0 <= a <= b < sorted@.len() implies chunk_key(
                sorted@[a],
                chunks_wide as int,
                entity_id,
            ) <= chunk_key(sorted@[b], chunks_wide as int, entity_id) by {
                if b < i {
                    assert(sorted@[a] == before[a] && sorted@[b] == before[b]);
                } else if b == i {
                    if a < i {
                        assert(sorted@[a] == before[a]);
                    }
                } else if a == i {
                    assert(sorted@[b] == before[b - 1]);
                    if i < before.len() {
                        assert(chunk_key(before[i as int], chunks_wide as int, entity_id) > key);
                        assert(chunk_key(before[i as int], chunks_wide as int, entity_id) <= chunk_key(
                            before[b - 1],
                            chunks_wide as int,
                            entity_id,
                        ));
                    }
                } else if a < i {
                    assert(sorted@[a] == before[a] && sorted@[b] == before[b - 1]);
                } else {
                    assert(sorted@[a] == before[a - 1] && sorted@[b] == before[b - 1]);
                }
            }
        }
        k += 1;
    }
    proof {
        assert(chunks@.subrange(0, chunks@.len() as int) =~= chunks@);
    }
    sorted
}

fn chunks_across_exec(size: u32) -> (r: u32)
    ensures
        r == chunks_across(size),
{
    size / KNOWLEDGE_CHUNK_SIZE + if size % KNOWLEDGE_CHUNK_SIZE == 0 {
        0
    } else {
        1
    }
}

fn max_u32(a: u32, b: u32) -> (r: u32)
    ensures
        r == max_int(a as int, b as int),
{
    if a >= b { a } else { b }
}

/// The first qualifying tile of chunk `c` when the chunk is eligible.
fn eligible_destination(mind: &Mind, world: &Grid, c: (u32, u32), tick: u64, required_region: Option<u32>) -> (r:
    Option<(u32, u32)>)
    requires
        world.wf(),
        mind.memory.wf(),
        world.width >= 1,
        world.height >= 1,
        c.0 < chunks_across(world.width),
        c.1 < chunks_across(world.height),
    ensures
        r is Some <==> chunk_eligible(*mind, *world, c, tick, required_region),
        r matches Some(p) ==> first_in_chunk(*world, c.0 as int, c.1 as int, required_region, p),
{
    let chunks_wide = chunks_across_exec(world.width);
    proof {
        lemma_chunk_grid_fits(world.width, world.height, c.0, c.1);
    }
    let candidate_chunk = c.1 * chunks_wide + c.0;
    if mind.memory.exploration_on_cooldown(candidate_chunk, tick) {
        return None;
    }
    let probe_x = c.0 as u64 * 8 + 4;
    let probe_y = c.1 as u64 * 8 + 4;
    let x = if probe_x < world.width as u64 - 1 { probe_x as u32 } else { world.width - 1 };
    let y = if probe_y < world.height as u64 - 1 { probe_y as u32 } else { world.height - 1 };
    if mind.memory.remembers_chunk(world, x, y) {
        return None;
    }
    walkable_in_chunk(world, c.0, c.1, required_region)
}

/// The chunks of ring `ring`, listed in `sorted` by non-decreasing key, where the first
/// `i` are ineligible and the `i`-th is eligible: then the `i`-th is the chosen chunk.
proof fn lemma_first_eligible_is_chosen(
    mind: Mind,
    world: Grid,
    origin: (u32, u32),
    entity_id: u32,
    tick: u64,
    ring: int,
    sorted: Seq<(u32, u32)>,
    i: int,
)
    requires
        1 <= ring <= spec_max_ring(world, origin),
        forall|p: (u32, u32)| #[trigger] sorted.contains(p) <==> on_ring(
            (origin.0 / 8) as int,
            (origin.1 / 8) as int,
            ring,
            chunks_across(world.width),
            chunks_across(world.height),
            p,
        ),
        forall|a: int, b: int|
            0 <= a <= b < sorted.len() ==> chunk_key(sorted[a], chunks_across(world.width), entity_id) <= chunk_key(
                sorted[b],
                chunks_across(world.width),
                entity_id,
            ),
        0 <= i < sorted.len(),
        chunk_eligible(mind, world, sorted[i], tick, world.spec_region_id_at(origin.0 as int, origin.1 as int)),
        forall|j: int|
            0 <= j < i ==> !chunk_eligible(
                mind,
                world,
                #[trigger] sorted[j],
                tick,
                world.spec_region_id_at(origin.0 as int, origin.1 as int),
            ),
        forall|r2: int, c2: (u32, u32)| r2 < ring ==> !#[trigger] exploration_candidate(mind, world, origin, tick, r2, c2),
    ensures
        chosen_chunk(mind, world, origin, entity_id, tick, ring, sorted[i]),
{
    let region = world.spec_region_id_at(origin.0 as int, origin.1 as int);
    assert(sorted.contains(sorted[i]));
    assert forall|c2: (u32, u32)| #[trigger] exploration_candidate(mind, world, origin, tick, ring, c2) implies chunk_key(
        sorted[i],
        chunks_across(world.width),
        entity_id,
    ) <= chunk_key(c2, chunks_across(world.width), entity_id) by {
        assert(sorted.contains(c2));
        let m = choose|m: int| 0 <= m < sorted.len() && sorted[m] == c2;
        if m < i {
            assert(!chunk_eligible(mind, world, sorted[m], tick, region));
        }
    }
}

/// When no chunk listed for ring `ring` is eligible, the ring has no candidate.
proof fn lemma_ring_exhausted(mind: Mind, world: Grid, origin: (u32, u32), tick: u64, ring: int, sorted: Seq<(u32, u32)>)
    requires
        forall|p: (u32, u32)| #[trigger] sorted.contains(p) <==> on_ring(
            (origin.0 / 8) as int,
            (origin.1 / 8) as int,
            ring,
            chunks_across(world.width),
            chunks_across(world.height),
            p,
        ),
        forall|j: int|
            0 <= j < sorted.len() ==> !chunk_eligible(
                mind,
                world,
                #[trigger] sorted[j],
                tick,
                world.spec_region_id_at(origin.0 as int, origin.1 as int),
            ),
    ensures
        forall|c2: (u32, u32)| !#[trigger] exploration_candidate(mind, world, origin, tick, ring, c2),
{
    assert forall|c2: (u32, u32)| !#[trigger] exploration_candidate(mind, world, origin, tick, ring, c2) by {
        if exploration_candidate(mind, world, origin, tick, ring, c2) {
            assert(sorted.contains(c2));
            let m = choose|m: int| 0 <= m < sorted.len() && sorted[m] == c2;
            assert(!chunk_eligible(mind, world, sorted[m], tick, world.spec_region_id_at(origin.0 as int, origin.1 as int)));
        }
    }
}

/// Where an individual at `origin` explores next: the first qualifying tile of the
/// chosen chunk (an eligible chunk on the nearest ring around the origin chunk that has
/// one, with the least order key there), tiles having to share the origin's region when
/// it has one; with no eligible chunk anywhere, a wander target.
pub fn exploration_target(mind: &Mind, world: &Grid, origin: (u32, u32), entity_id: u32, tick: u64) -> (r: Option<
    (u32, u32),
>)
    requires
        world.wf(),
        world.in_bounds(origin.0 as int, origin.1 as int),
        mind.memory.wf(),
    ensures
        (exists|ring: int, c: (u32, u32)| exploration_candidate(*mind, *world, origin, tick, ring, c))
            ==> exists|ring: int, c: (u32, u32)|
            #[trigger] chosen_chunk(*mind, *world, origin, entity_id, tick, ring, c) && (r matches Some(p)
                && first_in_chunk(
                *world,
                c.0 as int,
                c.1 as int,
                world.spec_region_id_at(origin.0 as int, origin.1 as int),
                p,
            )),
        (forall|ring: int, c: (u32, u32)| !exploration_candidate(*mind, *world, origin, tick, ring, c)) ==> r
            == wander_from(
            mind.memory.failed_exploration@,
            *world,
            origin,
            entity_id,
            tick,
            world.spec_region_id_at(origin.0 as int, origin.1 as int),
            0,
        ),
{
    let chunks_wide = chunks_across_exec(world.width);
    let chunks_high = chunks_across_exec(world.height);
    let ocx = origin.0 / KNOWLEDGE_CHUNK_SIZE;
    let ocy = origin.1 / KNOWLEDGE_CHUNK_SIZE;
    let origin_region = world.region_id_at(origin.0, origin.1);
    proof {
        lemma_chunk_grid_fits(world.width, world.height, ocx, ocy);
    }
    let max_ring = max_u32(max_u32(ocx, chunks_wide - 1 - ocx), max_u32(ocy, chunks_high - 1 - ocy));
    let mut ring: u32 = 1;
    while ring <= max_ring
        invariant
            world.wf(),
            world.in_bounds(origin.0 as int, origin.1 as int),
            mind.memory.wf(),
            chunks_wide == chunks_across(world.width),
            chunks_high == chunks_across(world.height),
            chunks_wide <= world.width,
            chunks_high <= world.height,
            chunks_wide * chunks_high <= u32::MAX,
            ocx == origin.0 / 8,
            ocy == origin.1 / 8,
            ocx < chunks_wide,
            ocy < chunks_high,
            origin_region == world.spec_region_id_at(origin.0 as int, origin.1 as int),
            max_ring == spec_max_ring(*world, origin),
            max_ring < chunks_wide || max_ring < chunks_high,
            1 <= ring <= max_ring + 1,
            forall|r2: int, c2: (u32, u32)|
                r2 < ring ==> !#[trigger] exploration_candidate(*mind, *world, origin, tick, r2, c2),
        decreases max_ring + 1 - ring,
    {
        let chunks = ring_perimeter(ocx as i32, ocy as i32, ring as i32, chunks_wide as i32, chunks_high as i32);
        proof {
            assert forall|k: int| 0 <= k < chunks@.len() implies (#[trigger] chunks@[k]).0 < chunks_wide
                && chunks@[k].1 < chunks_high by {
                assert(chunks@.contains(chunks@[k]));
            }
        }
        let sorted = sort_chunks_by_key(chunks, chunks_wide, chunks_high, entity_id);
        let mut i: usize = 0;
        while i < sorted.len()
            invariant
                world.wf(),
                mind.memory.wf(),
                world.width >= 1,
                world.height >= 1,
                chunks_wide == chunks_across(world.width),
                chunks_high == chunks_across(world.height),
                forall|p: (u32, u32)| #[trigger] sorted@.contains(p) <==> on_ring(
                    ocx as int,
                    ocy as int,
                    ring as int,
                    chunks_wide as int,
                    chunks_high as int,
                    p,
                ),
                forall|a: int, b: int|
                    0 <= a <= b < sorted@.len() ==> chunk_key(sorted@[a], chunks_wide as int, entity_id) <= chunk_key(
                        sorted@[b],
                        chunks_wide as int,
                        entity_id,
                    ),
                ocx == origin.0 / 8,
                ocy == origin.1 / 8,
                origin_region == world.spec_region_id_at(origin.0 as int, origin.1 as int),
                max_ring == spec_max_ring(*world, origin),
                1 <= ring <= max_ring,
                forall|r2: int, c2: (u32, u32)|
                    r2 < ring ==> !#[trigger] exploration_candidate(*mind, *world, origin, tick, r2, c2),
                0 <= i <= sorted@.len(),
                forall|j: int| 0 <= j < i ==> !chunk_eligible(*mind, *world, #[trigger] sorted@[j], tick, origin_region),
            decreases sorted@.len() - i,
        {
            let c = sorted[i];
            proof {
                assert(sorted@.contains(c));
            }
            match eligible_destination(mind, world, c, tick, origin_region) {
                Some(target) => {
                    proof {
                        lemma_first_eligible_is_chosen(*mind, *world, origin, entity_id, tick, ring as int, sorted@, i as int);
                        assert(chosen_chunk(*mind, *world, origin, entity_id, tick, ring as int, c));
                    }
                    return Some(target);
                },
                None => {},
            }
            i += 1;
        }
        proof {
            lemma_ring_exhausted(*mind, *world, origin, tick, ring as int, sorted@);
        }
        ring += 1;
    }
    deterministic_wander_target(mind, world, origin, entity_id, tick, origin_region)
}

} // verus!
