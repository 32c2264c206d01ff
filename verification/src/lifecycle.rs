//! Deterministic draws for an individual's life: sex, founder age, conception rolls, and
//! where a newborn is placed.
use vstd::prelude::*;
use crate::entity::{Pregnancy, Sex};
use crate::state_hash::spec_mix64;
use crate::time::{BASE_LIFESPAN_TICKS, FOUNDER_AGE_MAX, FOUNDER_AGE_MIN, LIFESPAN_VARIATION_TICKS, POSTPARTUM_TICKS};
use crate::mind::spec_manhattan;
use crate::world::{spec_index, spec_is_walkable, wide_index, Grid, ResourceDeposit, ResourceKind};
use vstd::relations::{sorted_by, total_ordering};

verus! {

/// Conception rolls are drawn below this scale.
pub const DAILY_CONCEPTION_SCALE: u64 = 10_000;
/// A conception roll below this threshold succeeds.
pub const DAILY_CONCEPTION_THRESHOLD: u64 = 100;

pub const SEX_SALT: u64 = 0x19d6_7a4e_2f91_b5c3;
pub const FOUNDER_AGE_SALT: u64 = 0x62e4_b19f_d03a_875c;
pub const LIFESPAN_SALT: u64 = 0xa7c5_31e8_42d9_f60b;

fn mix64(value: u64) -> (r: u64)
    ensures
        r == spec_mix64(value),
{
    reveal(spec_mix64);
    let mut v = value;
    v = v ^ (v >> 30);
    v = v.wrapping_mul(0xbf58_476d_1ce4_e5b9);
    v = v ^ (v >> 27);
    v = v.wrapping_mul(0x94d0_49bb_1331_11eb);
    v ^ (v >> 31)
}

/// The draw for `id` under `seed` and `salt`.
pub open spec fn spec_entity_random(seed: u64, id: u32, salt: u64) -> u64 {
    spec_mix64(seed ^ vstd::wrapping::u64_specs::wrapping_mul(id as u64, 0x9e37_79b9_7f4a_7c15) ^ salt)
}

pub fn entity_random(seed: u64, id: u32, salt: u64) -> (r: u64)
    ensures
        r == spec_entity_random(seed, id, salt),
{
    mix64(seed ^ (id as u64).wrapping_mul(0x9e37_79b9_7f4a_7c15) ^ salt)
}

/// Female when the draw is even, male when it is odd.
pub fn sex_for(seed: u64, id: u32) -> (r: Sex)
    ensures
        r == if spec_entity_random(seed, id, SEX_SALT) % 2 == 0 {
            Sex::Female
        } else {
            Sex::Male
        },
{
    let draw = entity_random(seed, id, SEX_SALT);
    assert(draw & 1 == draw % 2) by (bit_vector);
    if draw & 1 == 0 {
        Sex::Female
    } else {
        Sex::Male
    }
}

/// An individual's lifespan: the base lifespan give or take the variation, both ends
/// included.
pub fn lifespan_for(seed: u64, id: u32) -> (r: u64)
    ensures
        r == BASE_LIFESPAN_TICKS - LIFESPAN_VARIATION_TICKS + spec_entity_random(seed, id, LIFESPAN_SALT) % ((
        LIFESPAN_VARIATION_TICKS * 2 + 1) as u64),
        650_000 <= r <= 950_000,
{
    let minimum = BASE_LIFESPAN_TICKS - LIFESPAN_VARIATION_TICKS;
    let span = LIFESPAN_VARIATION_TICKS * 2 + 1;
    minimum + entity_random(seed, id, LIFESPAN_SALT) % span
}

/// A founder's age: between eighteen and forty years, both included.
pub fn founder_age_for(seed: u64, id: u32) -> (r: u64)
    ensures
        r == FOUNDER_AGE_MIN + spec_entity_random(seed, id, FOUNDER_AGE_SALT) % ((FOUNDER_AGE_MAX
            - FOUNDER_AGE_MIN + 1) as u64),
        FOUNDER_AGE_MIN <= r <= FOUNDER_AGE_MAX,
{
    let span = FOUNDER_AGE_MAX - FOUNDER_AGE_MIN + 1;
    FOUNDER_AGE_MIN + entity_random(seed, id, FOUNDER_AGE_SALT) % span
}

/// The daily conception roll of a couple, below `DAILY_CONCEPTION_SCALE`.
pub open spec fn spec_conception_roll(seed: u64, female_id: u32, male_id: u32, tick: u64) -> u64 {
    let value = seed ^ vstd::wrapping::u64_specs::wrapping_mul(female_id as u64, 0x9e37_79b9_7f4a_7c15)
        ^ vstd::wrapping::u64_specs::wrapping_mul(male_id as u64, 0xbf58_476d_1ce4_e5b9)
        ^ vstd::wrapping::u64_specs::wrapping_mul(tick, 0x94d0_49bb_1331_11eb);
    spec_mix64(value) % DAILY_CONCEPTION_SCALE
}

pub fn conception_roll(seed: u64, female_id: u32, male_id: u32, tick: u64) -> (r: u64)
    ensures
        r == spec_conception_roll(seed, female_id, male_id, tick),
        r < DAILY_CONCEPTION_SCALE,
{
    let value = seed ^ (female_id as u64).wrapping_mul(0x9e37_79b9_7f4a_7c15) ^ (male_id as u64).wrapping_mul(
        0xbf58_476d_1ce4_e5b9,
    ) ^ tick.wrapping_mul(0x94d0_49bb_1331_11eb);
    mix64(value) % DAILY_CONCEPTION_SCALE
}

/// The `k`-th neighbour offset tried for a birth: rows from above to below, columns
/// from left to right, the mother's own tile skipped.
pub open spec fn birth_offset(k: int) -> (int, int) {
    let cell = if k < 4 { k } else { k + 1 };
    (cell % 3 - 1, cell / 3 - 1)
}

/// The `k`-th neighbour is inside the world, unoccupied and walkable.
pub open spec fn birth_spot_ok(world: Grid, origin: (u32, u32), occupied: Seq<(u32, u32)>, k: int) -> bool {
    let x = origin.0 + birth_offset(k).0;
    let y = origin.1 + birth_offset(k).1;
    &&& 0 <= x < world.width
    &&& 0 <= y < world.height
    &&& !occupied.contains((x as u32, y as u32))
    &&& world.walkable(x, y)
}

/// The first acceptable neighbour from the `k`-th on.
pub open spec fn birth_spot_from(world: Grid, origin: (u32, u32), occupied: Seq<(u32, u32)>, k: int) -> Option<
    (u32, u32),
>
    decreases 8 - k,
{
    if k >= 8 || k < 0 {
        None
    } else if birth_spot_ok(world, origin, occupied, k) {
        Some(((origin.0 + birth_offset(k).0) as u32, (origin.1 + birth_offset(k).1) as u32))
    } else {
        birth_spot_from(world, origin, occupied, k + 1)
    }
}

/// A spot found from the `k`-th neighbour on is one of the eight neighbours, inside the
/// world, walkable and free.
proof fn lemma_birth_spot_ok(world: Grid, origin: (u32, u32), occupied: Seq<(u32, u32)>, k: int)
    requires
        birth_spot_from(world, origin, occupied, k) is Some,
    ensures
        ({
            let p = birth_spot_from(world, origin, occupied, k).unwrap();
            &&& p.0 < world.width && p.1 < world.height
            &&& world.walkable(p.0 as int, p.1 as int)
            &&& !occupied.contains(p)
            &&& p != origin
            &&& origin.0 - 1 <= p.0 <= origin.0 + 1
            &&& origin.1 - 1 <= p.1 <= origin.1 + 1
        }),
    decreases 8 - k,
{
    if k >= 8 || k < 0 {
    } else if birth_spot_ok(world, origin, occupied, k) {
        let cell = if k < 4 { k } else { k + 1 };
        assert(0 <= cell <= 8 && cell != 4);
        assert(birth_offset(k) == (cell % 3 - 1, cell / 3 - 1));
    } else {
        lemma_birth_spot_ok(world, origin, occupied, k + 1);
    }
}

fn contains_position(positions: &Vec<(u32, u32)>, position: (u32, u32)) -> (r: bool)
    ensures
        r == positions@.contains(position),
{
    let mut i: usize = 0;
    while i < positions.len()
        invariant
            0 <= i <= positions@.len(),
            forall|j: int| 0 <= j < i ==> positions@[j] != position,
        decreases positions@.len() - i,
    {
        let candidate = positions[i];
        if candidate.0 == position.0 && candidate.1 == position.1 {
            return true;
        }
        i += 1;
    }
    false
}

/// Where a newborn is placed: the first of the eight tiles around the mother that lies
/// in the world, is not occupied and can be walked on.
pub fn adjacent_birth_position(world: &Grid, origin: (u32, u32), occupied: &Vec<(u32, u32)>) -> (r: Option<
    (u32, u32),
>)
    ensures
        r == birth_spot_from(*world, origin, occupied@, 0),
        r matches Some(p) ==> p.0 < world.width && p.1 < world.height && world.walkable(p.0 as int, p.1 as int)
            && !occupied@.contains(p) && p != origin && origin.0 - 1 <= p.0 <= origin.0 + 1 && origin.1 - 1 <= p.1
            <= origin.1 + 1,
{
    let mut k: usize = 0;
    while k < 8
        invariant
            0 <= k <= 8,
            birth_spot_from(*world, origin, occupied@, 0) == birth_spot_from(*world, origin, occupied@, k as int),
        decreases 8 - k,
    {
        let cell: i64 = if k < 4 { k as i64 } else { k as i64 + 1 };
        let x = origin.0 as i64 + (cell % 3 - 1);
        let y = origin.1 as i64 + (cell / 3 - 1);
        if x >= 0 && y >= 0 && x < world.width as i64 && y < world.height as i64 {
            let position = (x as u32, y as u32);
            if !contains_position(occupied, position) && world.is_walkable_at(position.0, position.1) {
                proof {
                    lemma_birth_spot_ok(*world, origin, occupied@, 0);
                }
                return Some(position);
            }
        }
        k += 1;
    }
    None
}

/// Nearer to `center` first; at equal distance, by row and then by column.
pub open spec fn nearer_first(center: (u32, u32)) -> spec_fn((u32, u32), (u32, u32)) -> bool {
    |a: (u32, u32), b: (u32, u32)|
        {
            let da = spec_manhattan(a, center);
            let db = spec_manhattan(b, center);
            da < db || (da == db && (a.1 < b.1 || (a.1 == b.1 && a.0 <= b.0)))
        }
}

proof fn lemma_nearer_first_total(center: (u32, u32))
    ensures
        total_ordering(nearer_first(center)),
{
    let leq = nearer_first(center);
    assert forall|a: (u32, u32), b: (u32, u32)| #[trigger] leq(a, b) && #[trigger] leq(b, a) implies a == b by {
    }
}

/// The points of `s`, nearest to `center` first.
pub open spec fn by_distance(s: Seq<(u32, u32)>, center: (u32, u32)) -> Seq<(u32, u32)> {
    choose|t: Seq<(u32, u32)>| sorted_by(t, nearer_first(center)) && t.to_multiset() == s.to_multiset()
}

fn nearer_or_level(a: (u32, u32), b: (u32, u32), center: (u32, u32)) -> (r: bool)
    ensures
        r == nearer_first(center)(a, b),
{
    let da: u64 = (if a.0 >= center.0 { a.0 - center.0 } else { center.0 - a.0 }) as u64 + (if a.1 >= center.1 {
        a.1 - center.1
    } else {
        center.1 - a.1
    }) as u64;
    let db: u64 = (if b.0 >= center.0 { b.0 - center.0 } else { center.0 - b.0 }) as u64 + (if b.1 >= center.1 {
        b.1 - center.1
    } else {
        center.1 - b.1
    }) as u64;
    da < db || (da == db && (a.1 < b.1 || (a.1 == b.1 && a.0 <= b.0)))
}

/// Sorts the points nearest to `center` first, by insertion.
fn sort_by_distance(points: Vec<(u32, u32)>, center: (u32, u32)) -> (r: Vec<(u32, u32)>)
    ensures
        r@ == by_distance(points@, center),
        r@.to_multiset() == points@.to_multiset(),
{
    let ghost leq = nearer_first(center);
    proof {
        lemma_nearer_first_total(center);
    }
    let mut sorted: Vec<(u32, u32)> = Vec::new();
    let mut k: usize = 0;
    proof {
        assert(points@.subrange(0, 0) =~= Seq::<(u32, u32)>::empty());
        assert(sorted@ =~= Seq::<(u32, u32)>::empty());
    }
    while k < points.len()
        invariant
            leq == nearer_first(center),
            total_ordering(leq),
            0 <= k <= points@.len(),
            sorted_by(sorted@, leq),
            sorted@.to_multiset() == points@.subrange(0, k as int).to_multiset(),
        decreases points@.len() - k,
    {
        let value = points[k];
        let mut lo: usize = 0;
        let mut hi: usize = sorted.len();
        while lo < hi
            invariant
                leq == nearer_first(center),
                total_ordering(leq),
                sorted_by(sorted@, leq),
                0 <= lo <= hi <= sorted@.len(),
                forall|j: int| 0 <= j < lo ==> leq(sorted@[j], value),
                forall|j: int| hi <= j < sorted@.len() ==> !leq(sorted@[j], value),
            decreases hi - lo,
        {
            let mid = lo + (hi - lo) / 2;
            if nearer_or_level(sorted[mid], value, center) {
                proof {
                    assert forall|j: int| 0 <= j < mid + 1 implies leq(sorted@[j], value) by {
                        if j < mid {
                            assert(leq(sorted@[j], sorted@[mid as int]));
                        }
                    }
                }
                lo = mid + 1;
            } else {
                proof {
                    assert forall|j: int| mid <= j < sorted@.len() implies !leq(sorted@[j], value) by {
                        if j > mid {
                            assert(leq(sorted@[mid as int], sorted@[j]));
                            if leq(sorted@[j], value) {
                                assert(leq(sorted@[mid as int], value));
                            }
                        }
                    }
                }
                hi = mid;
            }
        }
        let ghost before = sorted@;
        sorted.insert(lo, value);
        proof {
            vstd::seq_lib::to_multiset_insert(before, lo as int, value);
            assert(points@.subrange(0, k + 1) =~= points@.subrange(0, k as int).push(value));
            vstd::seq_lib::to_multiset_build(points@.subrange(0, k as int), value);
            assert forall|a: int, b: int| 0 <= a < b < sorted@.len() implies #[trigger] leq(sorted@[a], sorted@[b]) by {
                if b < lo {
                    assert(sorted@[a] == before[a] && sorted@[b] == before[b]);
                } else if b == lo {
                    assert(sorted@[a] == before[a]);
                } else if a < lo {
                    assert(sorted@[a] == before[a] && sorted@[b] == before[b - 1]);
                    assert(leq(before[a], value));
                    assert(!leq(before[b - 1], value));
                    assert(leq(value, before[b - 1]));
                } else if a == lo {
                    assert(sorted@[b] == before[b - 1]);
                    assert(!leq(before[b - 1], value));
                } else {
                    assert(sorted@[a] == before[a - 1] && sorted@[b] == before[b - 1]);
                }
            }
        }
        k += 1;
    }
    proof {
        assert(points@.subrange(0, points@.len() as int) =~= points@);
        let other = by_distance(points@, center);
        assert(sorted_by(other, leq) && other.to_multiset() == points@.to_multiset());
        vstd::seq_lib::lemma_sorted_unique(sorted@, other, leq);
    }
    sorted
}

/// The coordinate of the `index`-th tile of a grid `width` tiles wide.
pub open spec fn coordinate_of(width: u32, index: int) -> (u32, u32) {
    ((index % (width as int)) as u32, (index / (width as int)) as u32)
}

/// A deposit slot that holds some food.
pub open spec fn holds_food(slot: Option<ResourceDeposit>) -> bool {
    slot matches Some(deposit) && deposit.kind == ResourceKind::Food && deposit.amount > 0
}

/// The coordinates of the first `n` deposit slots that hold food, in slot order.
pub open spec fn food_tiles(world: Grid, n: int) -> Seq<(u32, u32)>
    decreases n,
{
    if n <= 0 {
        Seq::empty()
    } else if holds_food(world.resources@[n - 1]) {
        food_tiles(world, n - 1).push(coordinate_of(world.width, n - 1))
    } else {
        food_tiles(world, n - 1)
    }
}

/// The coordinates of the first `n` tiles that can be walked on, in tile order.
pub open spec fn walkable_tiles(world: Grid, n: int) -> Seq<(u32, u32)>
    decreases n,
{
    if n <= 0 {
        Seq::empty()
    } else if spec_is_walkable(world.tiles@[n - 1].terrain) {
        walkable_tiles(world, n - 1).push(coordinate_of(world.width, n - 1))
    } else {
        walkable_tiles(world, n - 1)
    }
}

/// The `k`-th point of the diamond at Manhattan distance `radius` around `food`: columns
/// from left to right, and for each the point below the centre row before the point
/// above it.
pub open spec fn ring_point(food: (u32, u32), radius: int, k: int) -> (int, int) {
    let dx = k / 2 - radius;
    let dy = radius - (if dx < 0 { -dx } else { dx });
    (food.0 + dx, food.1 + (if k % 2 == 0 { dy } else { -dy }))
}

pub open spec fn ring(food: (u32, u32), radius: int) -> Seq<(int, int)> {
    Seq::new((4 * radius + 2) as nat, |k: int| ring_point(food, radius, k))
}

/// The diamonds of radius six up to `upto` around `food`, innermost first.
pub open spec fn rings(food: (u32, u32), upto: int) -> Seq<(int, int)>
    decreases upto,
{
    if upto < 6 {
        Seq::empty()
    } else {
        rings(food, upto - 1) + ring(food, upto)
    }
}

/// The diamonds of radius six to twelve around each food tile in turn.
pub open spec fn ring_walk(foods: Seq<(u32, u32)>) -> Seq<(int, int)>
    decreases foods.len(),
{
    if foods.len() == 0 {
        Seq::empty()
    } else {
        ring_walk(foods.drop_last()) + rings(foods.last(), 12)
    }
}

/// The points of `points` that lie in the world and can be walked on, in order.
pub open spec fn usable(world: Grid, points: Seq<(int, int)>) -> Seq<(u32, u32)>
    decreases points.len(),
{
    if points.len() == 0 {
        Seq::empty()
    } else if world.walkable(points.last().0, points.last().1) {
        usable(world, points.drop_last()).push((points.last().0 as u32, points.last().1 as u32))
    } else {
        usable(world, points.drop_last())
    }
}

/// Each point at its first occurrence only.
pub open spec fn keep_first(s: Seq<(u32, u32)>) -> Seq<(u32, u32)>
    decreases s.len(),
{
    if s.len() == 0 {
        Seq::empty()
    } else if s.drop_last().contains(s.last()) {
        keep_first(s.drop_last())
    } else {
        keep_first(s.drop_last()).push(s.last())
    }
}

/// Where founders may be placed, best first: the walkable points six to twelve steps
/// from a food tile, food tiles taken nearest to the centre of the world first; then
/// every other walkable tile, nearest to the centre first; each point once.
pub open spec fn spec_spawn_candidates(world: Grid) -> Seq<(u32, u32)> {
    let center = (world.width / 2, world.height / 2);
    let foods = by_distance(food_tiles(world, world.resources@.len() as int), center);
    let fallback = by_distance(walkable_tiles(world, world.tiles@.len() as int), center);
    keep_first(usable(world, ring_walk(foods)) + fallback)
}

/// A walkable point of the world is among the usable points of a list exactly when the
/// list holds it.
proof fn lemma_usable_contains(world: Grid, points: Seq<(int, int)>, p: (int, int))
    requires
        world.walkable(p.0, p.1),
    ensures
        usable(world, points).contains((p.0 as u32, p.1 as u32)) == points.contains(p),
    decreases points.len(),
{
    if points.len() > 0 {
        let rest = points.drop_last();
        lemma_usable_contains(world, rest, p);
        let q = points.last();
        assert(points =~= rest.push(q));
        if world.walkable(q.0, q.1) {
            assert(usable(world, points) == usable(world, rest).push((q.0 as u32, q.1 as u32)));
            if (q.0 as u32, q.1 as u32) == (p.0 as u32, p.1 as u32) {
                assert(q == p);
            }
            vstd::seq_lib::lemma_seq_contains_after_push(
                usable(world, rest),
                (q.0 as u32, q.1 as u32),
                (p.0 as u32, p.1 as u32),
            );
        } else {
            assert(q != p);
        }
        vstd::seq_lib::lemma_seq_contains_after_push(rest, q, p);
    }
}

fn collect_food_tiles(world: &Grid) -> (r: Vec<(u32, u32)>)
    requires
        world.resources@.len() <= u32::MAX,
        world.width > 0 || forall|i: int| 0 <= i < world.resources@.len() ==> !holds_food(#[trigger] world.resources@[i]),
    ensures
        r@ == food_tiles(*world, world.resources@.len() as int),
{
    let mut out: Vec<(u32, u32)> = Vec::new();
    let mut i: usize = 0;
    while i < world.resources.len()
        invariant
            world.resources@.len() <= u32::MAX,
            world.width > 0 || forall|i: int| 0 <= i < world.resources@.len() ==> !holds_food(#[trigger] world.resources@[i]),
            0 <= i <= world.resources@.len(),
            out@ == food_tiles(*world, i as int),
        decreases world.resources@.len() - i,
    {
        let slot = world.resources[i];
        let food = match slot {
            Some(deposit) => deposit.kind == ResourceKind::Food && deposit.amount > 0,
            None => false,
        };
        if food {
            assert(holds_food(world.resources@[i as int]));
            let index = i as u32;
            out.push((index % world.width, index / world.width));
        }
        i += 1;
    }
    out
}

fn collect_walkable_tiles(world: &Grid) -> (r: Vec<(u32, u32)>)
    requires
        world.wf(),
    ensures
        r@ == walkable_tiles(*world, world.tiles@.len() as int),
{
    let mut out: Vec<(u32, u32)> = Vec::new();
    let mut i: usize = 0;
    while i < world.tiles.len()
        invariant
            world.wf(),
            0 <= i <= world.tiles@.len(),
            out@ == walkable_tiles(*world, i as int),
        decreases world.tiles@.len() - i,
    {
        if world.tiles[i].terrain.is_walkable() {
            assert(world.width > 0) by (nonlinear_arith)
                requires
                    world.tiles@.len() == world.width * world.height,
                    i < world.tiles@.len(),
            ;
            let index = i as u32;
            out.push((index % world.width, index / world.width));
        }
        i += 1;
    }
    out
}

/// Every listed walkable tile lies in the world and can be walked on.
proof fn lemma_walkable_tiles_ok(world: Grid, n: int, j: int)
    requires
        world.wf(),
        0 <= n <= world.tiles@.len(),
        0 <= j < walkable_tiles(world, n).len(),
    ensures
        world.walkable(walkable_tiles(world, n)[j].0 as int, walkable_tiles(world, n)[j].1 as int),
    decreases n,
{
    if n > 0 {
        let prev = walkable_tiles(world, n - 1);
        if j < prev.len() {
            if spec_is_walkable(world.tiles@[n - 1].terrain) {
                assert(walkable_tiles(world, n)[j] == prev[j]);
            }
            lemma_walkable_tiles_ok(world, n - 1, j);
        } else {
            assert(world.width > 0) by (nonlinear_arith)
                requires
                    world.tiles@.len() == world.width * world.height,
                    n - 1 < world.tiles@.len(),
                    n - 1 >= 0,
            ;
            crate::world::lemma_coordinate_of_index(world.width as int, world.height as int, n - 1);
            let c = coordinate_of(world.width, n - 1);
            assert(c.0 as int == (n - 1) % (world.width as int));
            assert(c.1 as int == (n - 1) / (world.width as int));
        }
    }
}

/// The grid coordinate of the `index`-th tile, as a pair of integers.
pub open spec fn grid_point(width: u32, index: int) -> (int, int) {
    (index % (width as int), index / (width as int))
}

/// Taking one more point of a list that a spawn walk keeps first occurrences of.
proof fn lemma_keep_first_push(s: Seq<(u32, u32)>, x: (u32, u32))
    ensures
        keep_first(s.push(x)) == if s.contains(x) {
            keep_first(s)
        } else {
            keep_first(s).push(x)
        },
{
    assert(s.push(x).drop_last() =~= s);
}

/// Where founders may be placed, best first: the walkable points six to twelve steps
/// from each food tile, food tiles nearest to the centre of the world first; then every
/// other walkable tile, nearest to the centre first. Points at equal distance from the
/// centre are taken row by row.
pub fn spawn_candidates(world: &Grid) -> (r: Vec<(u32, u32)>)
    requires
        world.wf(),
        world.resources@.len() <= u32::MAX,
        world.width > 0 || forall|i: int| 0 <= i < world.resources@.len() ==> !holds_food(#[trigger] world.resources@[i]),
    ensures
        r@ == spec_spawn_candidates(*world),
{
    let center = (world.width / 2, world.height / 2);
    let foods = sort_by_distance(collect_food_tiles(world), center);
    let walkable = collect_walkable_tiles(world);
    let ghost walkable_seq = walkable@;
    let fallback = sort_by_distance(walkable, center);
    let width = world.width;
    let height = world.height;
    let tile_count = world.tiles.len();
    let mut seen: Vec<bool> = Vec::new();
    while seen.len() < tile_count
        invariant
            seen@.len() <= tile_count,
            forall|j: int| 0 <= j < seen@.len() ==> !(#[trigger] seen@[j]),
        decreases tile_count - seen@.len(),
    {
        seen.push(false);
    }
    let ghost mut processed: Seq<(int, int)> = Seq::empty();
    let mut out: Vec<(u32, u32)> = Vec::new();
    proof {
        assert(foods@.take(0) =~= Seq::<(u32, u32)>::empty());
        assert(usable(*world, processed) =~= Seq::<(u32, u32)>::empty());
    }
    let mut fi: usize = 0;
    while fi < foods.len()
        invariant
            world.wf(),
            width == world.width,
            height == world.height,
            tile_count == world.tiles@.len(),
            0 <= fi <= foods@.len(),
            processed == ring_walk(foods@.take(fi as int)),
            seen@.len() == tile_count,
            forall|j: int| 0 <= j < seen@.len() ==> #[trigger] seen@[j] == processed.contains(grid_point(width, j)),
            out@ == keep_first(usable(*world, processed)),
        decreases foods@.len() - fi,
    {
        let food = foods[fi];
        let ghost base = processed;
        proof {
            assert(rings(food, 5) =~= Seq::<(int, int)>::empty());
            assert(processed =~= base + rings(food, 5));
        }
        let mut radius: i64 = 6;
        while radius <= 12
            invariant
                world.wf(),
                width == world.width,
                height == world.height,
                tile_count == world.tiles@.len(),
                6 <= radius <= 13,
                processed == base + rings(food, radius - 1),
                seen@.len() == tile_count,
                forall|j: int| 0 <= j < seen@.len() ==> #[trigger] seen@[j] == processed.contains(grid_point(width, j)),
                out@ == keep_first(usable(*world, processed)),
            decreases 13 - radius,
        {
            let ghost before_ring = processed;
            proof {
                assert(ring(food, radius as int).take(0) =~= Seq::<(int, int)>::empty());
                assert(processed =~= before_ring + ring(food, radius as int).take(0));
            }
            let mut k: i64 = 0;
            while k < 4 * radius + 2
                invariant
                    world.wf(),
                    width == world.width,
                    height == world.height,
                    tile_count == world.tiles@.len(),
                    6 <= radius <= 12,
                    0 <= k <= 4 * radius + 2,
                    processed == before_ring + ring(food, radius as int).take(k as int),
                    seen@.len() == tile_count,
                    forall|j: int| 0 <= j < seen@.len() ==> #[trigger] seen@[j] == processed.contains(grid_point(width, j)),
                    out@ == keep_first(usable(*world, processed)),
                decreases 4 * radius + 2 - k,
            {
                let dx = k / 2 - radius;
                let adx = if dx < 0 { -dx } else { dx };
                let dy = radius - adx;
                let sdy = if k % 2 == 0 { dy } else { -dy };
                let x = food.0 as i64 + dx;
                let y = food.1 as i64 + sdy;
                let ghost p = (x as int, y as int);
                let ghost old_processed = processed;
                let ghost old_seen = seen@;
                let ghost old_out = out@;
                assert(p == ring_point(food, radius as int, k as int));
                if x >= 0 && y >= 0 && x < width as i64 && y < height as i64 {
                    let xi = x as u32;
                    let yi = y as u32;
                    let index = wide_index(width, xi, yi) as usize;
                    proof {
                        crate::world::lemma_index_in_grid(width as int, height as int, xi as int, yi as int);
                    }
                    if !seen[index] {
                        seen.set(index, true);
                        if world.is_walkable_at(xi, yi) {
                            out.push((xi, yi));
                        }
                    }
                    proof {
                        assert forall|j: int| 0 <= j < seen@.len() implies #[trigger] seen@[j]
                            == old_processed.push(p).contains(grid_point(width, j)) by {
                            vstd::seq_lib::lemma_seq_contains_after_push(old_processed, p, grid_point(width, j));
                            crate::world::lemma_coordinate_of_index(width as int, height as int, j);
                            if j != index as int {
                                assert(grid_point(width, j) != p);
                            }
                        }
                    }
                } else {
                    proof {
                        assert forall|j: int| 0 <= j < seen@.len() implies #[trigger] seen@[j]
                            == old_processed.push(p).contains(grid_point(width, j)) by {
                            vstd::seq_lib::lemma_seq_contains_after_push(old_processed, p, grid_point(width, j));
                            crate::world::lemma_coordinate_of_index(width as int, height as int, j);
                        }
                    }
                }
                proof {
                    processed = old_processed.push(p);
                    assert(processed.drop_last() =~= old_processed);
                    if world.walkable(p.0, p.1) {
                        lemma_usable_contains(*world, old_processed, p);
                        lemma_keep_first_push(usable(*world, old_processed), (p.0 as u32, p.1 as u32));
                        assert(usable(*world, processed) == usable(*world, old_processed).push((p.0 as u32, p.1 as u32)));
                        let index = p.1 * width + p.0;
                        crate::world::lemma_index_in_grid(width as int, height as int, p.0, p.1);
                        assert(old_seen[index] == old_processed.contains(grid_point(width, index)));
                        assert(grid_point(width, index) == p);
                    } else {
                        assert(usable(*world, processed) == usable(*world, old_processed));
                    }
                    assert(ring(food, radius as int).take(k + 1) =~= ring(food, radius as int).take(k as int).push(p));
                    assert(processed =~= before_ring + ring(food, radius as int).take(k + 1));
                }
                k += 1;
            }
            proof {
                assert(ring(food, radius as int).take(4 * radius + 2) =~= ring(food, radius as int));
                assert(rings(food, radius as int) == rings(food, radius - 1) + ring(food, radius as int));
                assert(processed =~= base + rings(food, radius as int));
            }
            radius += 1;
        }
        proof {
            assert(foods@.take(fi + 1).drop_last() =~= foods@.take(fi as int));
            assert(foods@.take(fi + 1).last() == food);
            assert(processed =~= ring_walk(foods@.take(fi + 1)));
        }
        fi += 1;
    }
    proof {
        assert(foods@.take(foods@.len() as int) =~= foods@);
        assert(fallback@.take(0) =~= Seq::<(u32, u32)>::empty());
        assert(usable(*world, processed) + fallback@.take(0) =~= usable(*world, processed));
        assert forall|m: int| 0 <= m < fallback@.len() implies world.walkable(
            #[trigger] fallback@[m].0 as int,
            fallback@[m].1 as int,
        ) by {
            let tiles = walkable_tiles(*world, world.tiles@.len() as int);
            assert(tiles == walkable_seq);
            vstd::seq_lib::to_multiset_contains(fallback@, fallback@[m]);
            vstd::seq_lib::to_multiset_contains(tiles, fallback@[m]);
            assert(fallback@.contains(fallback@[m]));
            let j = choose|j: int| 0 <= j < tiles.len() && tiles[j] == fallback@[m];
            lemma_walkable_tiles_ok(*world, world.tiles@.len() as int, j);
        }
    }
    let ghost ring_points = processed;
    let mut m: usize = 0;
    while m < fallback.len()
        invariant
            world.wf(),
            width == world.width,
            height == world.height,
            tile_count == world.tiles@.len(),
            0 <= m <= fallback@.len(),
            forall|q: int| 0 <= q < fallback@.len() ==> world.walkable(#[trigger] fallback@[q].0 as int, fallback@[q].1 as int),
            seen@.len() == tile_count,
            forall|j: int|
                0 <= j < seen@.len() ==> #[trigger] seen@[j] == (ring_points.contains(grid_point(width, j))
                    || fallback@.take(m as int).contains(((j % (width as int)) as u32, (j / (width as int)) as u32))),
            out@ == keep_first(usable(*world, ring_points) + fallback@.take(m as int)),
        decreases fallback@.len() - m,
    {
        let t = fallback[m];
        let ghost old_seen = seen@;
        let ghost prefix = usable(*world, ring_points) + fallback@.take(m as int);
        assert(world.walkable(fallback@[m as int].0 as int, fallback@[m as int].1 as int));
        let index = wide_index(width, t.0, t.1) as usize;
        proof {
            crate::world::lemma_index_in_grid(width as int, height as int, t.0 as int, t.1 as int);
            lemma_usable_contains(*world, ring_points, (t.0 as int, t.1 as int));
            vstd::seq_lib::lemma_seq_concat_contains_all_elements(usable(*world, ring_points), fallback@.take(m as int), t);
            assert(old_seen[index as int] == prefix.contains(t));
        }
        if !seen[index] {
            seen.set(index, true);
            out.push(t);
        }
        proof {
            lemma_keep_first_push(prefix, t);
            assert(fallback@.take(m + 1) =~= fallback@.take(m as int).push(t));
            assert(usable(*world, ring_points) + fallback@.take(m + 1) =~= prefix.push(t));
            assert forall|j: int| 0 <= j < seen@.len() implies #[trigger] seen@[j] == (ring_points.contains(
                grid_point(width, j),
            ) || fallback@.take(m + 1).contains(((j % (width as int)) as u32, (j / (width as int)) as u32))) by {
                let c = ((j % (width as int)) as u32, (j / (width as int)) as u32);
                vstd::seq_lib::lemma_seq_contains_after_push(fallback@.take(m as int), t, c);
                crate::world::lemma_coordinate_of_index(width as int, height as int, j);
                if j != index as int {
                    assert(c != t);
                }
            }
        }
        m += 1;
    }
    proof {
        assert(fallback@.take(fallback@.len() as int) =~= fallback@);
    }
    out
}

proof fn lemma_keep_first_props(s: Seq<(u32, u32)>)
    ensures
        keep_first(s).no_duplicates(),
        forall|x: (u32, u32)| keep_first(s).contains(x) == s.contains(x),
    decreases s.len(),
{
    if s.len() > 0 {
        let rest = s.drop_last();
        lemma_keep_first_props(rest);
        assert(s =~= rest.push(s.last()));
        assert forall|x: (u32, u32)| keep_first(s).contains(x) == s.contains(x) by {
            vstd::seq_lib::lemma_seq_contains_after_push(rest, s.last(), x);
            vstd::seq_lib::lemma_seq_contains_after_push(keep_first(rest), s.last(), x);
        }
    }
}

proof fn lemma_usable_walkable(world: Grid, points: Seq<(int, int)>, j: int)
    requires
        0 <= j < usable(world, points).len(),
    ensures
        world.walkable(usable(world, points)[j].0 as int, usable(world, points)[j].1 as int),
    decreases points.len(),
{
    if points.len() > 0 {
        let rest = points.drop_last();
        if j < usable(world, rest).len() {
            lemma_usable_walkable(world, rest, j);
        }
    }
}

/// Every walkable tile before the `n`-th is listed.
proof fn lemma_walkable_tiles_complete(world: Grid, n: int, index: int)
    requires
        world.wf(),
        0 <= index < n <= world.tiles@.len(),
        spec_is_walkable(world.tiles@[index].terrain),
    ensures
        walkable_tiles(world, n).contains(coordinate_of(world.width, index)),
    decreases n,
{
    if index < n - 1 {
        lemma_walkable_tiles_complete(world, n - 1, index);
        if spec_is_walkable(world.tiles@[n - 1].terrain) {
            vstd::seq_lib::lemma_seq_contains_after_push(
                walkable_tiles(world, n - 1),
                coordinate_of(world.width, n - 1),
                coordinate_of(world.width, index),
            );
        }
    } else {
        assert(walkable_tiles(world, n).last() == coordinate_of(world.width, index));
    }
}

/// Every candidate spawn point lies in the world and can be walked on, none is listed
/// twice, and every walkable tile is among them.
pub proof fn lemma_spawn_candidates_walkable_and_complete(world: Grid)
    requires
        world.wf(),
    ensures
        spec_spawn_candidates(world).no_duplicates(),
        forall|j: int|
            0 <= j < spec_spawn_candidates(world).len() ==> world.walkable(
                #[trigger] spec_spawn_candidates(world)[j].0 as int,
                spec_spawn_candidates(world)[j].1 as int,
            ),
        forall|x: u32, y: u32| world.walkable(x as int, y as int) ==> #[trigger] spec_spawn_candidates(world).contains((x, y)),
{
    let center = (world.width / 2, world.height / 2);
    let leq = nearer_first(center);
    lemma_nearer_first_total(center);
    let tiles = walkable_tiles(world, world.tiles@.len() as int);
    tiles.lemma_sort_by_ensures(leq);
    assert(sorted_by(tiles.sort_by(leq), leq) && tiles.sort_by(leq).to_multiset() == tiles.to_multiset());
    let fallback = by_distance(tiles, center);
    assert(sorted_by(fallback, leq) && fallback.to_multiset() == tiles.to_multiset());
    let foods = by_distance(food_tiles(world, world.resources@.len() as int), center);
    let ringed = usable(world, ring_walk(foods));
    let all = ringed + fallback;
    lemma_keep_first_props(all);
    assert forall|j: int| 0 <= j < spec_spawn_candidates(world).len() implies world.walkable(
        #[trigger] spec_spawn_candidates(world)[j].0 as int,
        spec_spawn_candidates(world)[j].1 as int,
    ) by {
        let x = spec_spawn_candidates(world)[j];
        assert(spec_spawn_candidates(world).contains(x));
        assert(all.contains(x));
        vstd::seq_lib::lemma_seq_concat_contains_all_elements(ringed, fallback, x);
        if ringed.contains(x) {
            let i = choose|i: int| 0 <= i < ringed.len() && ringed[i] == x;
            lemma_usable_walkable(world, ring_walk(foods), i);
        } else {
            vstd::seq_lib::to_multiset_contains(fallback, x);
            vstd::seq_lib::to_multiset_contains(tiles, x);
            let i = choose|i: int| 0 <= i < tiles.len() && tiles[i] == x;
            lemma_walkable_tiles_ok(world, world.tiles@.len() as int, i);
        }
    }
    assert forall|x: u32, y: u32| world.walkable(x as int, y as int) implies #[trigger] spec_spawn_candidates(
        world,
    ).contains((x, y)) by {
        let index = spec_index(world.width as int, x as int, y as int);
        crate::world::lemma_index_in_grid(world.width as int, world.height as int, x as int, y as int);
        lemma_walkable_tiles_complete(world, world.tiles@.len() as int, index);
        assert(coordinate_of(world.width, index) == (x, y));
        vstd::seq_lib::to_multiset_contains(tiles, (x, y));
        vstd::seq_lib::to_multiset_contains(fallback, (x, y));
        vstd::seq_lib::lemma_seq_concat_contains_all_elements(ringed, fallback, (x, y));
    }
}

/// Prospective parents must stand within this Manhattan distance of each other.
pub const REPRODUCTION_MAX_DISTANCE: u32 = 2;
/// Neither prospective parent may remember the other below this affinity.
pub const REPRODUCTION_MIN_AFFINITY: i16 = -200;

/// What partner selection reads of one prospective father.
#[derive(Clone, Copy, Debug, PartialEq, Eq)]
pub struct PartnerCandidate {
    pub id: u32,
    pub position: (u32, u32),
    /// The candidate is a fertile male: his sex, age, hunger and health allow it.
    pub fertile: bool,
    /// The affinity the female remembers toward him, if she knows him.
    pub affinity_from_female: Option<i16>,
    /// The affinity he remembers toward the female, if he knows her.
    pub affinity_to_female: Option<i16>,
}

pub open spec fn affinity_or_neutral(affinity: Option<i16>) -> int {
    match affinity {
        Some(a) => a as int,
        None => 0,
    }
}

/// Fertile, close enough, and neither side remembers the other too badly.
pub open spec fn eligible_partner(female_position: (u32, u32), candidate: PartnerCandidate) -> bool {
    &&& candidate.fertile
    &&& spec_manhattan(female_position, candidate.position) <= REPRODUCTION_MAX_DISTANCE
    &&& affinity_or_neutral(candidate.affinity_from_female) >= REPRODUCTION_MIN_AFFINITY
    &&& affinity_or_neutral(candidate.affinity_to_female) >= REPRODUCTION_MIN_AFFINITY
}

/// The ranking of a candidate: the weaker of the two affinities, then their sum, then
/// nearness, then the lower id.
pub open spec fn partner_rank(female_position: (u32, u32), candidate: PartnerCandidate) -> (int, int, int, int) {
    let mine = affinity_or_neutral(candidate.affinity_from_female);
    let theirs = affinity_or_neutral(candidate.affinity_to_female);
    (
        if mine <= theirs { mine } else { theirs },
        mine + theirs,
        -spec_manhattan(female_position, candidate.position),
        -(candidate.id as int),
    )
}

pub open spec fn rank_le(a: (int, int, int, int), b: (int, int, int, int)) -> bool {
    a.0 < b.0 || (a.0 == b.0 && (a.1 < b.1 || (a.1 == b.1 && (a.2 < b.2 || (a.2 == b.2 && a.3 <= b.3)))))
}

/// The `i`-th candidate is eligible and ranks at least as high as every eligible one.
pub open spec fn best_partner_at(female_position: (u32, u32), candidates: Seq<PartnerCandidate>, i: int) -> bool {
    &&& 0 <= i < candidates.len()
    &&& eligible_partner(female_position, candidates[i])
    &&& forall|j: int|
        0 <= j < candidates.len() && eligible_partner(female_position, #[trigger] candidates[j]) ==> rank_le(
            partner_rank(female_position, candidates[j]),
            partner_rank(female_position, candidates[i]),
        )
}

/// The current partner is the first candidate with that id and is eligible.
pub open spec fn partner_eligible(female_position: (u32, u32), partner_id: Option<u32>, candidates: Seq<
    PartnerCandidate,
>) -> bool {
    partner_id matches Some(id) && exists|i: int|
        0 <= i < candidates.len() && (#[trigger] candidates[i]).id == id && (forall|j: int|
            0 <= j < i ==> (#[trigger] candidates[j]).id != id) && eligible_partner(female_position, candidates[i])
}

fn affinity_value(affinity: Option<i16>) -> (r: i16)
    ensures
        r == affinity_or_neutral(affinity),
{
    match affinity {
        Some(a) => a,
        None => 0,
    }
}

fn distance_between(a: (u32, u32), b: (u32, u32)) -> (r: u64)
    ensures
        r == spec_manhattan(a, b),
{
    (if a.0 >= b.0 { a.0 - b.0 } else { b.0 - a.0 }) as u64 + (if a.1 >= b.1 { a.1 - b.1 } else { b.1 - a.1 }) as u64
}

fn is_eligible_partner(female_position: (u32, u32), candidate: PartnerCandidate) -> (r: bool)
    ensures
        r == eligible_partner(female_position, candidate),
{
    candidate.fertile && distance_between(female_position, candidate.position) <= REPRODUCTION_MAX_DISTANCE as u64
        && affinity_value(candidate.affinity_from_female) >= REPRODUCTION_MIN_AFFINITY && affinity_value(
        candidate.affinity_to_female,
    ) >= REPRODUCTION_MIN_AFFINITY
}

fn ranks_at_most(female_position: (u32, u32), a: PartnerCandidate, b: PartnerCandidate) -> (r: bool)
    ensures
        r == rank_le(partner_rank(female_position, a), partner_rank(female_position, b)),
{
    let am = affinity_value(a.affinity_from_female) as i32;
    let at = affinity_value(a.affinity_to_female) as i32;
    let bm = affinity_value(b.affinity_from_female) as i32;
    let bt = affinity_value(b.affinity_to_female) as i32;
    let a0 = if am <= at { am } else { at };
    let b0 = if bm <= bt { bm } else { bt };
    let a1 = am + at;
    let b1 = bm + bt;
    let ad = distance_between(female_position, a.position);
    let bd = distance_between(female_position, b.position);
    a0 < b0 || (a0 == b0 && (a1 < b1 || (a1 == b1 && (ad > bd || (ad == bd && a.id >= b.id)))))
}

/// Whether the current partner is the first candidate with his id and is eligible.
fn current_partner_eligible(female_position: (u32, u32), partner_id: Option<u32>, candidates: &Vec<PartnerCandidate>) -> (r:
    bool)
    ensures
        r == partner_eligible(female_position, partner_id, candidates@),
{
    let id = match partner_id {
        Some(id) => id,
        None => {
            return false;
        },
    };
    let mut i: usize = 0;
    while i < candidates.len()
        invariant
            partner_id == Some(id),
            0 <= i <= candidates@.len(),
            forall|j: int| 0 <= j < i ==> (#[trigger] candidates@[j]).id != id,
        decreases candidates@.len() - i,
    {
        if candidates[i].id == id {
            let ok = is_eligible_partner(female_position, candidates[i]);
            proof {
                if ok {
                    assert(candidates@[i as int].id == id);
                } else {
                    assert forall|k: int|
                        0 <= k < candidates@.len() && (#[trigger] candidates@[k]).id == id && (forall|j: int|
                            0 <= j < k ==> (#[trigger] candidates@[j]).id != id) implies !eligible_partner(
                        female_position,
                        candidates@[k],
                    ) by {
                        if k > i {
                            assert(candidates@[i as int].id == id);
                        }
                    }
                }
            }
            return ok;
        }
        i += 1;
    }
    false
}

/// Chooses the father for a female at `female_position`: her current partner when he is
/// eligible; otherwise the eligible candidate with the strongest mutual affinity, then
/// the highest joint affinity, then the nearest, then the lowest id; `None` when nobody
/// is eligible.
pub fn select_reproduction_partner(
    female_position: (u32, u32),
    partner_id: Option<u32>,
    candidates: &Vec<PartnerCandidate>,
) -> (r: Option<u32>)
    ensures
        partner_eligible(female_position, partner_id, candidates@) ==> r == partner_id,
        !partner_eligible(female_position, partner_id, candidates@) ==> (r is None <==> forall|j: int|
            0 <= j < candidates@.len() ==> !eligible_partner(female_position, #[trigger] candidates@[j])),
        !partner_eligible(female_position, partner_id, candidates@) ==> (r matches Some(id) ==> exists|i: int|
            best_partner_at(female_position, candidates@, i) && (#[trigger] candidates@[i]).id == id),
{
    if current_partner_eligible(female_position, partner_id, candidates) {
        return partner_id;
    }
    let mut best: Option<usize> = None;
    let mut i: usize = 0;
    while i < candidates.len()
        invariant
            0 <= i <= candidates@.len(),
            best is None ==> forall|j: int| 0 <= j < i ==> !eligible_partner(female_position, #[trigger] candidates@[j]),
            best matches Some(b) ==> b < i && eligible_partner(female_position, candidates@[b as int]) && forall|j: int|
                0 <= j < i && eligible_partner(female_position, #[trigger] candidates@[j]) ==> rank_le(
                    partner_rank(female_position, candidates@[j]),
                    partner_rank(female_position, candidates@[b as int]),
                ),
        decreases candidates@.len() - i,
    {
        let candidate = candidates[i];
        if is_eligible_partner(female_position, candidate) {
            let replace = match best {
                None => true,
                Some(b) => ranks_at_most(female_position, candidates[b], candidate),
            };
            if replace {
                best = Some(i);
            }
        }
        i += 1;
    }
    match best {
        Some(b) => {
            proof {
                assert(best_partner_at(female_position, candidates@, b as int));
            }
            Some(candidates[b].id)
        },
        None => None,
    }
}

/// A newborn waiting to be created: where, and whose.
#[derive(Clone, Copy, Debug, PartialEq, Eq)]
pub struct PendingBirth {
    pub position: (u32, u32),
    pub mother_id: u32,
    pub father_id: u32,
}

/// What birth processing reads and changes of one individual.
#[derive(Clone, Copy, Debug, PartialEq, Eq)]
pub struct ReproductiveState {
    pub id: u32,
    pub position: (u32, u32),
    pub pregnancy: Option<Pregnancy>,
    pub postpartum_until_tick: u64,
}

pub open spec fn positions_of(states: Seq<ReproductiveState>) -> Seq<(u32, u32)> {
    Seq::new(states.len(), |i: int| states[i].position)
}

pub open spec fn sat_add_u64(a: u64, b: u64) -> u64 {
    if a + b > u64::MAX { u64::MAX } else { (a + b) as u64 }
}

/// After the first `k` individuals were considered: the occupied tiles, the births so
/// far, and everyone's state. A due mother gives birth on the first free walkable tile
/// around her, which becomes occupied; she is no longer pregnant and enters her
/// postpartum period. Nothing more happens once `max_births` births were made.
pub open spec fn birth_pass(world: Grid, tick: u64, max_births: usize, states: Seq<ReproductiveState>, k: int) -> (
    Seq<(u32, u32)>,
    Seq<PendingBirth>,
    Seq<ReproductiveState>,
)
    decreases k,
{
    if k <= 0 {
        (positions_of(states), Seq::empty(), states)
    } else {
        let (occupied, births, current) = birth_pass(world, tick, max_births, states, k - 1);
        let mother = states[k - 1];
        if births.len() >= max_births {
            (occupied, births, current)
        } else {
            match mother.pregnancy {
                Some(pregnancy) => if pregnancy.due_tick > tick {
                    (occupied, births, current)
                } else {
                    match birth_spot_from(world, mother.position, occupied, 0) {
                        Some(position) => (
                            occupied.push(position),
                            births.push(PendingBirth { position, mother_id: mother.id, father_id: pregnancy.father_id }),
                            current.update(
                                k - 1,
                                ReproductiveState {
                                    pregnancy: None,
                                    postpartum_until_tick: sat_add_u64(tick, POSTPARTUM_TICKS),
                                    ..mother
                                },
                            ),
                        ),
                        None => (occupied, births, current),
                    }
                },
                None => (occupied, births, current),
            }
        }
    }
}

proof fn lemma_birth_pass_len(world: Grid, tick: u64, max_births: usize, states: Seq<ReproductiveState>, k: int)
    requires
        0 <= k <= states.len(),
    ensures
        birth_pass(world, tick, max_births, states, k).2.len() == states.len(),
        forall|j: int| k <= j < states.len() ==> #[trigger] birth_pass(world, tick, max_births, states, k).2[j] == states[j],
        birth_pass(world, tick, max_births, states, k).1.len() <= max_births,
    decreases k,
{
    if k > 0 {
        lemma_birth_pass_len(world, tick, max_births, states, k - 1);
    }
}

/// Delivers every due pregnancy, in order, up to `max_births` newborns: each is placed
/// on the first free walkable tile around its mother (skipped while there is none), the
/// mother's pregnancy ends and her postpartum period starts.
pub fn process_due_pregnancies(
    states: &mut Vec<ReproductiveState>,
    world: &Grid,
    tick: u64,
    max_births: usize,
) -> (births: Vec<PendingBirth>)
    ensures
        births@ == birth_pass(*world, tick, max_births, old(states)@, old(states)@.len() as int).1,
        final(states)@ == birth_pass(*world, tick, max_births, old(states)@, old(states)@.len() as int).2,
{
    let ghost original = states@;
    let mut occupied: Vec<(u32, u32)> = Vec::new();
    let mut i: usize = 0;
    while i < states.len()
        invariant
            states@ == original,
            0 <= i <= original.len(),
            occupied@ == positions_of(original).take(i as int),
        decreases original.len() - i,
    {
        occupied.push(states[i].position);
        proof {
            assert(occupied@ =~= positions_of(original).take(i + 1));
        }
        i += 1;
    }
    proof {
        assert(occupied@ =~= positions_of(original));
    }
    let mut births: Vec<PendingBirth> = Vec::new();
    let mut k: usize = 0;
    while k < states.len()
        invariant
            states@.len() == original.len(),
            0 <= k <= original.len(),
            (occupied@, births@, states@) == birth_pass(*world, tick, max_births, original, k as int),
        decreases original.len() - k,
    {
        proof {
            lemma_birth_pass_len(*world, tick, max_births, original, k as int);
        }
        let mother = states[k];
        assert(mother == original[k as int]);
        if births.len() >= max_births {
            k += 1;
            continue;
        }
        let pregnancy = match mother.pregnancy {
            Some(pregnancy) => pregnancy,
            None => {
                k += 1;
                continue;
            },
        };
        if pregnancy.due_tick > tick {
            k += 1;
            continue;
        }
        let position = match adjacent_birth_position(world, mother.position, &occupied) {
            Some(position) => position,
            None => {
                k += 1;
                continue;
            },
        };
        occupied.push(position);
        let postpartum = if tick <= u64::MAX - POSTPARTUM_TICKS { tick + POSTPARTUM_TICKS } else { u64::MAX };
        states.set(
            k,
            ReproductiveState {
                id: mother.id,
                position: mother.position,
                pregnancy: None,
                postpartum_until_tick: postpartum,
            },
        );
        births.push(PendingBirth { position, mother_id: mother.id, father_id: pregnancy.father_id });
        k += 1;
    }
    births
}

pub open spec fn birth_positions(births: Seq<PendingBirth>) -> Seq<(u32, u32)> {
    Seq::new(births.len(), |i: int| births[i].position)
}

/// The newborns of a pass: on walkable tiles next to their mothers, never on a tile that
/// anybody stood on, never two on one tile, and no more than `max_births`.
proof fn lemma_birth_pass_placement(world: Grid, tick: u64, max_births: usize, states: Seq<ReproductiveState>, k: int)
    requires
        0 <= k <= states.len(),
    ensures
        ({
            let (occupied, births, after) = birth_pass(world, tick, max_births, states, k);
            &&& occupied == positions_of(states) + birth_positions(births)
            &&& births.len() <= max_births
            &&& forall|i: int|
                0 <= i < births.len() ==> {
                    let p = #[trigger] births[i].position;
                    &&& world.walkable(p.0 as int, p.1 as int)
                    &&& !positions_of(states).contains(p)
                    &&& exists|j: int|
                        0 <= j < k && states[j].id == births[i].mother_id && states[j].position != p
                            && states[j].position.0 - 1 <= p.0 <= states[j].position.0 + 1
                            && states[j].position.1 - 1 <= p.1 <= states[j].position.1 + 1
                }
            &&& forall|i: int, j: int| 0 <= i < j < births.len() ==> #[trigger] births[i].position != #[trigger] births[j].position
        }),
    decreases k,
{
    if k > 0 {
        lemma_birth_pass_placement(world, tick, max_births, states, k - 1);
        let (occupied, births, current) = birth_pass(world, tick, max_births, states, k - 1);
        let mother = states[k - 1];
        if births.len() < max_births {
            if let Some(pregnancy) = mother.pregnancy {
                if pregnancy.due_tick <= tick {
                    if let Some(position) = birth_spot_from(world, mother.position, occupied, 0) {
                        lemma_birth_spot_ok(world, mother.position, occupied, 0);
                        let next = births.push(PendingBirth { position, mother_id: mother.id, father_id: pregnancy.father_id });
                        assert(birth_positions(next) =~= birth_positions(births).push(position));
                        assert(occupied.push(position) =~= positions_of(states) + birth_positions(next));
                        vstd::seq_lib::lemma_seq_concat_contains_all_elements(positions_of(states), birth_positions(births), position);
                        assert forall|i: int| 0 <= i < births.len() implies births[i].position != position by {
                            assert(birth_positions(births)[i] == births[i].position);
                        }
                    }
                }
            }
        }
    }
}

/// Every newborn of a pass lands on a walkable tile next to its mother, on no tile that
/// anybody stood on and on no other newborn's tile; at most `max_births` are born, and
/// everyone is still accounted for afterwards.
pub proof fn lemma_births_placed_apart(world: Grid, tick: u64, max_births: usize, states: Seq<ReproductiveState>)
    ensures
        ({
            let (occupied, births, after) = birth_pass(world, tick, max_births, states, states.len() as int);
            &&& births.len() <= max_births
            &&& after.len() == states.len()
            &&& forall|i: int|
                0 <= i < births.len() ==> {
                    let p = #[trigger] births[i].position;
                    &&& world.walkable(p.0 as int, p.1 as int)
                    &&& !positions_of(states).contains(p)
                    &&& exists|j: int|
                        0 <= j < states.len() && states[j].id == births[i].mother_id && states[j].position != p
                            && states[j].position.0 - 1 <= p.0 <= states[j].position.0 + 1
                            && states[j].position.1 - 1 <= p.1 <= states[j].position.1 + 1
                }
            &&& forall|i: int, j: int| 0 <= i < j < births.len() ==> #[trigger] births[i].position != #[trigger] births[j].position
        }),
{
    lemma_birth_pass_placement(world, tick, max_births, states, states.len() as int);
    lemma_birth_pass_len(world, tick, max_births, states, states.len() as int);
}

} // verus!
