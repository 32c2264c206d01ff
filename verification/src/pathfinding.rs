//! Eight-neighbour A* over the tile grid, and line-of-sight path smoothing.
//!
//! Costs are fixed-point: a cardinal step over open plains costs `CARDINAL_STEP`
//! times the terrain's movement cost (in tenths), a diagonal step `DIAGONAL_STEP`
//! times it, so that `DIAGONAL_STEP / CARDINAL_STEP` approximates the square root
//! of two.
use vstd::prelude::*;
use crate::world::{spec_movement_cost, spec_index, lemma_index_in_grid, lemma_coordinate_of_index, Grid};

verus! {

pub const CARDINAL_STEP: u64 = 10_000;
pub const DIAGONAL_STEP: u64 = 14_142;
/// Most expensive single step: a diagonal onto the dearest terrain.
pub const MAX_STEP_COST: u64 = 424_260;
pub const DEFAULT_MAX_ITERATIONS: usize = 50_000;

pub open spec fn abs_diff(a: int, b: int) -> int {
    if a >= b { a - b } else { b - a }
}

/// `to` is one of the eight tiles around `from`, can be entered, and a diagonal move
/// does not cut the corner of an impassable tile.
pub open spec fn neighbor_ok(grid: &Grid, from: (u32, u32), to: (u32, u32)) -> bool {
    let dx = abs_diff(from.0 as int, to.0 as int);
    let dy = abs_diff(from.1 as int, to.1 as int);
    &&& dx <= 1 && dy <= 1 && (dx != 0 || dy != 0)
    &&& grid.walkable(to.0 as int, to.1 as int)
    &&& (dx == 1 && dy == 1 ==> grid.walkable(from.0 as int, to.1 as int) && grid.walkable(
        to.0 as int,
        from.1 as int,
    ))
}

/// A single move of a route; symmetric in its two ends.
pub open spec fn valid_step(grid: &Grid, a: (u32, u32), b: (u32, u32)) -> bool {
    grid.walkable(a.0 as int, a.1 as int) && neighbor_ok(grid, a, b)
}

/// A non-empty sequence of walkable tiles in which each tile is a legal move from the
/// one before it.
pub open spec fn valid_route(grid: &Grid, route: Seq<(u32, u32)>) -> bool {
    &&& route.len() >= 1
    &&& forall|i: int| 0 <= i < route.len() ==> grid.walkable(route[i].0 as int, route[i].1 as int)
    &&& forall|i: int| 0 <= i < route.len() - 1 ==> valid_step(grid, #[trigger] route[i], route[i + 1])
}

/// A route that starts at `start` and ends at `goal`.
pub open spec fn route_between(
    grid: &Grid,
    route: Seq<(u32, u32)>,
    start: (u32, u32),
    goal: (u32, u32),
) -> bool {
    &&& valid_route(grid, route)
    &&& route[0] == start
    &&& route.last() == goal
}

/// What a search returns before it explores anything: `None` for a missing or
/// impassable endpoint or for endpoints known to lie in different regions, the
/// single-tile route when they coincide; otherwise the search decides.
pub open spec fn trivial_search_outcome(grid: &Grid, start: (u32, u32), goal: (u32, u32)) -> Option<
    Option<Seq<(u32, u32)>>,
> {
    if !grid.walkable(start.0 as int, start.1 as int) || !grid.walkable(goal.0 as int, goal.1 as int) {
        Some(None)
    } else if start == goal {
        Some(Some(seq![start]))
    } else if grid.spec_region_id_at(start.0 as int, start.1 as int) is Some
        && grid.spec_region_id_at(goal.0 as int, goal.1 as int) is Some
        && grid.spec_region_id_at(start.0 as int, start.1 as int) != grid.spec_region_id_at(
        goal.0 as int,
        goal.1 as int,
    ) {
        Some(None)
    } else {
        None
    }
}

/// No tile appears twice.
pub open spec fn distinct_tiles(route: Seq<(u32, u32)>) -> bool {
    forall|i: int, j: int| 0 <= i < j < route.len() ==> route[i] != route[j]
}

proof fn lemma_coordinate_injective(grid: &Grid, a: int, b: int)
    requires
        grid.wf(),
        0 <= a < grid.tiles@.len(),
        0 <= b < grid.tiles@.len(),
        a != b,
    ensures
        spec_coordinate(grid.width as int, a) != spec_coordinate(grid.width as int, b),
{
    let w = grid.width as int;
    assert(w > 0) by {
        if w == 0 {
            assert(grid.tiles@.len() == 0) by (nonlinear_arith)
                requires
                    grid.tiles@.len() == w * grid.height,
                    w == 0,
            ;
        }
    }
    vstd::arithmetic::div_mod::lemma_fundamental_div_mod(a, w);
    vstd::arithmetic::div_mod::lemma_fundamental_div_mod(b, w);
    assert(a / w <= a) by {
        vstd::arithmetic::div_mod::lemma_div_is_ordered_by_denominator(a, 1, w);
    }
    assert(b / w <= b) by {
        vstd::arithmetic::div_mod::lemma_div_is_ordered_by_denominator(b, 1, w);
    }
    vstd::arithmetic::div_mod::lemma_mod_pos_bound(a, w);
    vstd::arithmetic::div_mod::lemma_mod_pos_bound(b, w);
    vstd::arithmetic::div_mod::lemma_div_pos_is_pos(a, w);
    vstd::arithmetic::div_mod::lemma_div_pos_is_pos(b, w);
}

/// The contract every search variant meets: the trivial cases are answered as
/// `trivial_search_outcome` says, and a route found is legal, visits no tile twice and
/// costs no more than any other route between the same ends.
pub open spec fn search_result_ok(
    grid: &Grid,
    start: (u32, u32),
    goal: (u32, u32),
    result: Option<Seq<(u32, u32)>>,
) -> bool {
    &&& (trivial_search_outcome(grid, start, goal) matches Some(outcome) ==> result == outcome)
    &&& (result matches Some(route) ==> route_between(grid, route, start, goal) && distinct_tiles(route))
    &&& (result matches Some(route) ==> forall|other: Seq<(u32, u32)>|
        route_between(grid, other, start, goal) ==> route_cost(grid, route) <= route_cost(grid, other))
}

pub open spec fn base_step(dx: int, dy: int) -> int {
    if dx == 1 && dy == 1 { DIAGONAL_STEP as int } else { CARDINAL_STEP as int }
}

pub open spec fn spec_step_cost(grid: &Grid, from: (u32, u32), to: (u32, u32)) -> Option<u64> {
    let dx = abs_diff(from.0 as int, to.0 as int);
    let dy = abs_diff(from.1 as int, to.1 as int);
    if dx > 1 || dy > 1 || (dx == 0 && dy == 0) {
        None
    } else {
        match grid.spec_get(to.0 as int, to.1 as int) {
            None => None,
            Some(tile) => match spec_movement_cost(tile.terrain) {
                None => None,
                Some(cost) => Some((base_step(dx, dy) * cost) as u64),
            },
        }
    }
}

/// Octile distance in cost units over the cheapest terrain; never more than the cost
/// of any route between the two tiles.
pub open spec fn spec_octile(left: (u32, u32), right: (u32, u32)) -> int {
    let dx = abs_diff(left.0 as int, right.0 as int);
    let dy = abs_diff(left.1 as int, right.1 as int);
    let (long, short) = if dx >= dy { (dx, dy) } else { (dy, dx) };
    (long * CARDINAL_STEP + short * (DIAGONAL_STEP - CARDINAL_STEP)) * 10
}

/// The cost of one move as a number; zero when the move is not possible.
pub open spec fn step_value(grid: &Grid, from: (u32, u32), to: (u32, u32)) -> int {
    match spec_step_cost(grid, from, to) {
        Some(cost) => cost as int,
        None => 0,
    }
}

/// The cost of walking `route` from its first tile to its last.
pub open spec fn route_cost(grid: &Grid, route: Seq<(u32, u32)>) -> int
    decreases route.len(),
{
    if route.len() <= 1 {
        0
    } else {
        route_cost(grid, route.drop_last()) + step_value(grid, route[route.len() - 2], route.last())
    }
}

/// Some route joins `start` to `goal`.
pub open spec fn reachable(grid: &Grid, start: (u32, u32), goal: (u32, u32)) -> bool {
    exists|route: Seq<(u32, u32)>| route_between(grid, route, start, goal)
}

/// The number of expansions a search may make.
pub open spec fn expansion_limit(max_iterations: Option<usize>) -> int {
    match max_iterations {
        Some(limit) => limit as int,
        None => DEFAULT_MAX_ITERATIONS as int,
    }
}

/// A legal move has a cost of at least its length over the cheapest terrain.
proof fn lemma_step_cost_of_move(grid: &Grid, from: (u32, u32), to: (u32, u32))
    requires
        neighbor_ok(grid, from, to),
    ensures
        spec_step_cost(grid, from, to) is Some,
        step_value(grid, from, to) >= base_step(
            abs_diff(from.0 as int, to.0 as int),
            abs_diff(from.1 as int, to.1 as int),
        ) * 10,
        step_value(grid, from, to) > 0,
{
    let tile = grid.spec_get(to.0 as int, to.1 as int).unwrap();
    let cost = spec_movement_cost(tile.terrain).unwrap();
    let base = base_step(abs_diff(from.0 as int, to.0 as int), abs_diff(from.1 as int, to.1 as int));
    assert(10 <= cost <= 30);
    assert(base * 10 <= base * cost <= base * 30) by (nonlinear_arith)
        requires 10 <= cost <= 30, base > 0;
    assert(base * 30 <= 14_142 * 30) by (nonlinear_arith)
        requires 0 < base <= 14_142;
}

/// The octile estimate never drops by more than the length of one move.
proof fn lemma_octile_consistent(a: (u32, u32), b: (u32, u32), goal: (u32, u32))
    requires
        abs_diff(a.0 as int, b.0 as int) <= 1,
        abs_diff(a.1 as int, b.1 as int) <= 1,
    ensures
        spec_octile(a, goal) <= base_step(abs_diff(a.0 as int, b.0 as int), abs_diff(a.1 as int, b.1 as int))
            * 10 + spec_octile(b, goal),
{
}

/// Following the route from its `k`-th tile to its end costs at least the estimate
/// at that tile.
proof fn lemma_estimate_admissible(grid: &Grid, route: Seq<(u32, u32)>, k: int)
    requires
        valid_route(grid, route),
        0 <= k < route.len(),
    ensures
        spec_octile(route[k], route.last()) <= route_cost(grid, route) - route_cost(grid, route.take(k + 1)),
    decreases route.len() - k,
{
    if k == route.len() - 1 {
        assert(route.take(k + 1) =~= route);
    } else {
        lemma_estimate_admissible(grid, route, k + 1);
        lemma_prefix_cost_step(grid, route, k);
        assert(valid_step(grid, route[k], route[k + 1]));
        lemma_step_cost_of_move(grid, route[k], route[k + 1]);
        lemma_octile_consistent(route[k], route[k + 1], route.last());
    }
}

/// Along a route, the estimate at its `k`-th tile exceeds the estimate at its end by
/// no more than what remains to walk.
proof fn lemma_estimate_along(grid: &Grid, route: Seq<(u32, u32)>, k: int, goal: (u32, u32))
    requires
        valid_route(grid, route),
        0 <= k < route.len(),
    ensures
        spec_octile(route[k], goal) <= route_cost(grid, route) - route_cost(grid, route.take(k + 1)) + spec_octile(
            route.last(),
            goal,
        ),
    decreases route.len() - k,
{
    if k == route.len() - 1 {
        assert(route.take(k + 1) =~= route);
    } else {
        lemma_estimate_along(grid, route, k + 1, goal);
        lemma_prefix_cost_step(grid, route, k);
        assert(valid_step(grid, route[k], route[k + 1]));
        lemma_step_cost_of_move(grid, route[k], route[k + 1]);
        lemma_octile_consistent(route[k], route[k + 1], goal);
    }
}

/// One more tile of prefix costs one more move.
proof fn lemma_prefix_cost_step(grid: &Grid, route: Seq<(u32, u32)>, k: int)
    requires
        0 <= k < route.len() - 1,
    ensures
        route_cost(grid, route.take(k + 2)) == route_cost(grid, route.take(k + 1)) + step_value(
            grid,
            route[k],
            route[k + 1],
        ),
{
    assert(route.take(k + 2).drop_last() =~= route.take(k + 1));
}

/// No route has a negative cost.
proof fn lemma_route_cost_nonnegative(grid: &Grid, route: Seq<(u32, u32)>)
    ensures
        route_cost(grid, route) >= 0,
    decreases route.len(),
{
    if route.len() > 1 {
        lemma_route_cost_nonnegative(grid, route.drop_last());
    }
}

/// Along a chain whose recorded costs grow by at least each move's cost, no prefix
/// costs more than the growth of the recorded cost.
proof fn lemma_chain_cost(grid: &Grid, route: Seq<(u32, u32)>, costs: Seq<int>, m: int)
    requires
        route.len() == costs.len(),
        0 <= m < route.len(),
        forall|j: int|
            #![trigger costs[j]]
            0 <= j < route.len() - 1 ==> costs[j] + step_value(grid, route[j], route[j + 1]) <= costs[j + 1],
    ensures
        route_cost(grid, route.take(m + 1)) <= costs[m] - costs[0],
    decreases m,
{
    if m > 0 {
        lemma_chain_cost(grid, route, costs, m - 1);
        lemma_prefix_cost_step(grid, route, m - 1);
        assert(costs[m - 1] + step_value(grid, route[m - 1], route[m]) <= costs[m]);
    }
}

fn abs_diff_u32(a: u32, b: u32) -> (r: u32)
    ensures
        r == abs_diff(a as int, b as int),
{
    if a >= b { a - b } else { b - a }
}

/// Cost of moving from `from` onto the adjacent tile `to`; `None` when the tiles are
/// not adjacent or `to` cannot be entered.
pub fn step_cost(grid: &Grid, from: (u32, u32), to: (u32, u32)) -> (r: Option<u64>)
    ensures
        r == spec_step_cost(grid, from, to),
{
    let dx = abs_diff_u32(from.0, to.0);
    let dy = abs_diff_u32(from.1, to.1);
    if dx > 1 || dy > 1 || (dx == 0 && dy == 0) {
        return None;
    }
    let terrain_cost = match grid.get(to.0, to.1) {
        None => { return None; },
        Some(tile) => match tile.terrain.movement_cost() {
            None => { return None; },
            Some(cost) => cost,
        },
    };
    let base_cost: u64 = if dx == 1 && dy == 1 { DIAGONAL_STEP } else { CARDINAL_STEP };
    assert(terrain_cost <= 30);
    Some(base_cost * terrain_cost as u64)
}

fn octile(left: (u32, u32), right: (u32, u32)) -> (r: u64)
    ensures
        r == spec_octile(left, right),
        r < 0x10_0000_0000_0000,
{
    let dx = abs_diff_u32(left.0, right.0) as u64;
    let dy = abs_diff_u32(left.1, right.1) as u64;
    let (long, short) = if dx >= dy { (dx, dy) } else { (dy, dx) };
    assert(long <= 0xffff_ffff && short <= 0xffff_ffff);
    assert(long * 10_000 <= 0xffff_ffff * 10_000) by (nonlinear_arith)
        requires long <= 0xffff_ffff;
    assert(short * 4_142 <= 0xffff_ffff * 4_142) by (nonlinear_arith)
        requires short <= 0xffff_ffff;
    (long * 10_000 + short * 4_142) * 10
}

/// The legal moves out of `center`, in the order up, left, right, down, then the four
/// diagonals.
fn neighbors_8dir(grid: &Grid, center: (u32, u32)) -> (r: Vec<(u32, u32)>)
    requires
        grid.in_bounds(center.0 as int, center.1 as int),
    ensures
        forall|n: (u32, u32)| r@.contains(n) <==> neighbor_ok(grid, center, n),
        r@.len() <= 8,
{
    let (x, y) = center;
    let up = y > 0 && grid.is_walkable_at(x, y - 1);
    let down = y + 1 < grid.height && grid.is_walkable_at(x, y + 1);
    let left = x > 0 && grid.is_walkable_at(x - 1, y);
    let right = x + 1 < grid.width && grid.is_walkable_at(x + 1, y);
    let mut out: Vec<(u32, u32)> = Vec::new();
    let ghost i_up = out@.len() as int;
    if up {
        out.push((x, y - 1));
    }
    let ghost i_left = out@.len() as int;
    if left {
        out.push((x - 1, y));
    }
    let ghost i_right = out@.len() as int;
    if right {
        out.push((x + 1, y));
    }
    let ghost i_down = out@.len() as int;
    if down {
        out.push((x, y + 1));
    }
    let ul = up && left && grid.is_walkable_at(x - 1, y - 1);
    let ghost i_ul = out@.len() as int;
    if ul {
        out.push((x - 1, y - 1));
    }
    let ur = up && right && grid.is_walkable_at(x + 1, y - 1);
    let ghost i_ur = out@.len() as int;
    if ur {
        out.push((x + 1, y - 1));
    }
    let dl = down && left && grid.is_walkable_at(x - 1, y + 1);
    let ghost i_dl = out@.len() as int;
    if dl {
        out.push((x - 1, y + 1));
    }
    let dr = down && right && grid.is_walkable_at(x + 1, y + 1);
    let ghost i_dr = out@.len() as int;
    if dr {
        out.push((x + 1, y + 1));
    }
    proof {
        assert forall|n: (u32, u32)| out@.contains(n) implies neighbor_ok(grid, center, n) by {
            let i = choose|i: int| 0 <= i < out@.len() && out@[i] == n;
        }
        assert forall|n: (u32, u32)| neighbor_ok(grid, center, n) implies out@.contains(n) by {
            let dx = n.0 as int - x;
            let dy = n.1 as int - y;
            if dx == 0 && dy == -1 {
                assert(up);
                assert(out@[i_up] == n);
            } else if dx == -1 && dy == 0 {
                assert(left);
                assert(out@[i_left] == n);
            } else if dx == 1 && dy == 0 {
                assert(right);
                assert(out@[i_right] == n);
            } else if dx == 0 && dy == 1 {
                assert(down);
                assert(out@[i_down] == n);
            } else if dx == -1 && dy == -1 {
                assert(ul);
                assert(out@[i_ul] == n);
            } else if dx == 1 && dy == -1 {
                assert(ur);
                assert(out@[i_ur] == n);
            } else if dx == -1 && dy == 1 {
                assert(dl);
                assert(out@[i_dl] == n);
            } else {
                assert(dx == 1 && dy == 1);
                assert(dr);
                assert(out@[i_dr] == n);
            }
        }
    }
    out
}

fn tile_index(grid: &Grid, coordinate: (u32, u32)) -> (r: usize)
    requires
        grid.wf(),
        grid.in_bounds(coordinate.0 as int, coordinate.1 as int),
    ensures
        r == spec_index(grid.width as int, coordinate.0 as int, coordinate.1 as int),
        r < grid.tiles@.len(),
{
    proof {
        lemma_index_in_grid(grid.width as int, grid.height as int, coordinate.0 as int, coordinate.1 as int);
    }
    (coordinate.1 * grid.width + coordinate.0) as usize
}

pub open spec fn spec_coordinate(width: int, index: int) -> (u32, u32) {
    ((index % width) as u32, (index / width) as u32)
}

fn coordinate(grid: &Grid, index: usize) -> (r: (u32, u32))
    requires
        grid.wf(),
        index < grid.tiles@.len(),
    ensures
        r == spec_coordinate(grid.width as int, index as int),
        grid.in_bounds(r.0 as int, r.1 as int),
        spec_index(grid.width as int, r.0 as int, r.1 as int) == index,
{
    proof {
        assert(grid.width > 0) by (nonlinear_arith)
            requires index < grid.width * grid.height, index >= 0;
        lemma_coordinate_of_index(grid.width as int, grid.height as int, index as int);
    }
    let index = index as u32;
    (index % grid.width, index / grid.width)
}

/// An entry of the open set: a tile and the estimated cost of the best route through it.
#[derive(Clone, Copy, Debug)]
struct OpenNode {
    position: usize,
    estimated_total: u128,
}

/// `a` leaves the open set before `b`: lower estimate first, then lower tile index.
spec fn pops_before(a: OpenNode, b: OpenNode) -> bool {
    a.estimated_total < b.estimated_total || (a.estimated_total == b.estimated_total
        && a.position <= b.position)
}

/// Removes and returns the entry that pops first.
fn pop_best(open: &mut Vec<OpenNode>) -> (r: Option<OpenNode>)
    ensures
        old(open)@.len() == 0 ==> r is None && final(open)@ == old(open)@,
        old(open)@.len() > 0 ==> (r matches Some(e) && {
            &&& old(open)@.contains(e)
            &&& final(open)@.len() == old(open)@.len() - 1
            &&& forall|j: int| 0 <= j < final(open)@.len() ==> old(open)@.contains(#[trigger] final(open)@[j])
            &&& forall|j: int| 0 <= j < old(open)@.len() ==> pops_before(e, #[trigger] old(open)@[j])
            &&& exists|b: int|
                0 <= b < old(open)@.len() && old(open)@[b] == e && final(open)@ == old(open)@.update(
                    b,
                    old(open)@.last(),
                ).drop_last()
        }),
{
    if open.len() == 0 {
        return None;
    }
    let mut best: usize = 0;
    let mut k: usize = 1;
    while k < open.len()
        invariant
            1 <= k <= open@.len(),
            best < k,
            forall|j: int| 0 <= j < k ==> pops_before(open@[best as int], #[trigger] open@[j]),
        decreases open@.len() - k,
    {
        let candidate = open[k];
        let current = open[best];
        if candidate.estimated_total < current.estimated_total || (candidate.estimated_total
            == current.estimated_total && candidate.position < current.position) {
            best = k;
        }
        k += 1;
    }
    let ghost before = open@;
    let e = open.swap_remove(best);
    proof {
        assert(before.contains(e));
        assert(before[best as int] == e && open@ == before.update(best as int, before.last()).drop_last());
        assert forall|j: int| 0 <= j < open@.len() implies before.contains(#[trigger] open@[j]) by {
            if j == best as int {
                assert(open@[j] == before[before.len() - 1]);
            } else {
                assert(open@[j] == before[j]);
            }
        }
    }
    Some(e)
}

/// Scratch buffers reused across searches; `generation` marks which entries belong to
/// the search under way.
#[derive(Debug)]
pub struct PathfindingWorkspace {
    open: Vec<OpenNode>,
    came_from: Vec<Option<usize>>,
    costs: Vec<u128>,
    generation: Vec<u32>,
    current_gen: u32,
    /// Expansions made by the latest search.
    expansions: usize,
}

impl PathfindingWorkspace {
    /// The buffers have one entry per tile and no entry is ahead of the current search.
    pub closed spec fn wf(&self) -> bool {
        &&& self.came_from@.len() == self.costs@.len()
        &&& self.costs@.len() == self.generation@.len()
        &&& forall|i: int| 0 <= i < self.generation@.len() ==> #[trigger] self.generation@[i] <= self.current_gen
    }

    /// Whether `index` was reached by the search under way.
    closed spec fn seen(&self, index: int) -> bool {
        0 <= index < self.generation@.len() && self.generation@[index] == self.current_gen
    }

    /// The generation of the search under way.
    pub closed spec fn spec_current_gen(&self) -> u32 {
        self.current_gen
    }

    /// How many tiles the buffers have room for.
    pub closed spec fn spec_tile_slots(&self) -> nat {
        self.generation@.len()
    }

    /// How many tiles wait to be expanded.
    pub closed spec fn spec_open_len(&self) -> nat {
        self.open@.len()
    }

    /// How many expansions the latest search made.
    pub closed spec fn spec_expansions(&self) -> int {
        self.expansions as int
    }

    /// How many expansions the latest search made.
    pub fn expansions(&self) -> (r: usize)
        ensures
            r == self.spec_expansions(),
    {
        self.expansions
    }

    pub fn new() -> (r: Self)
        ensures
            r.wf(),
            r.spec_current_gen() == 0,
            r.spec_tile_slots() == 0,
            r.spec_open_len() == 0,
            r.spec_expansions() == 0,
    {
        PathfindingWorkspace {
            open: Vec::new(),
            came_from: Vec::new(),
            costs: Vec::new(),
            generation: Vec::new(),
            current_gen: 0,
            expansions: 0,
        }
    }

    /// A reached tile can be entered, its cost is bounded by the expansions so far, and
    /// unless it is the start it records a cheaper reached predecessor one move away.
    closed spec fn node_ok(&self, grid: &Grid, start: int, iterations: int, i: int) -> bool {
        let n = grid.tiles@.len() as int;
        let c = spec_coordinate(grid.width as int, i);
        &&& grid.walkable(c.0 as int, c.1 as int)
        &&& self.costs@[i] <= iterations * MAX_STEP_COST
        &&& i != start ==> (self.came_from@[i] matches Some(p) && {
            &&& p < n
            &&& self.seen(p as int)
            &&& self.costs@[p as int] < self.costs@[i]
            &&& valid_step(grid, spec_coordinate(grid.width as int, p as int), c)
            &&& self.costs@[p as int] + step_value(grid, spec_coordinate(grid.width as int, p as int), c)
                <= self.costs@[i]
        })
    }

    /// The bookkeeping of a search from `start` after `iterations` expansions: every
    /// reached tile can be entered, and every reached tile other than `start` records a
    /// cheaper reached predecessor one legal move away.
    closed spec fn search_ok(&self, grid: &Grid, start: int, iterations: int) -> bool {
        let n = grid.tiles@.len() as int;
        &&& self.wf()
        &&& self.generation@.len() >= n
        &&& 0 <= start < n
        &&& self.seen(start)
        &&& self.costs@[start] == 0
        &&& forall|i: int| 0 <= i < n && #[trigger] self.seen(i) ==> self.node_ok(grid, start, iterations, i)
        &&& forall|j: int| 0 <= j < self.open@.len() ==> {
            &&& (#[trigger] self.open@[j]).position < n
            &&& self.seen(self.open@[j].position as int)
        }
    }

    /// Tile `i` has an entry waiting in the open set whose estimate is current.
    #[verifier::opaque]
    closed spec fn live(&self, grid: &Grid, goal: (u32, u32), i: int) -> bool {
        exists|j: int|
            0 <= j < self.open@.len() && (#[trigger] self.open@[j]).position == i
                && self.open@[j].estimated_total <= self.costs@[i] + spec_octile(
                spec_coordinate(grid.width as int, i),
                goal,
            )
    }

    /// The move from tile `i` onto `c` has been tried: `c` is reached, at a cost no
    /// higher than through `i`.
    closed spec fn tried(&self, grid: &Grid, i: int, c: (u32, u32)) -> bool {
        let t = spec_index(grid.width as int, c.0 as int, c.1 as int);
        &&& self.seen(t)
        &&& self.costs@[t] <= self.costs@[i] + step_value(grid, spec_coordinate(grid.width as int, i), c)
    }

    /// Every legal move out of tile `i` has been tried.
    #[verifier::opaque]
    closed spec fn expanded(&self, grid: &Grid, i: int) -> bool {
        forall|c: (u32, u32)| #[trigger] neighbor_ok(grid, spec_coordinate(grid.width as int, i), c) ==> self.tried(grid, i, c)
    }

    /// No entry of the open set underestimates its tile.
    #[verifier::opaque]
    closed spec fn estimates_ok(&self, grid: &Grid, goal: (u32, u32)) -> bool {
        forall|j: int|
            0 <= j < self.open@.len() ==> (#[trigger] self.open@[j]).estimated_total >= self.costs@[self.open@[j].position as int]
                + spec_octile(spec_coordinate(grid.width as int, self.open@[j].position as int), goal)
    }

    /// The frontier of a search toward `goal`: every reached tile other than `skip` is
    /// either expanded or waiting in the open set, and so is the goal once reached.
    closed spec fn frontier_ok(&self, grid: &Grid, goal: (u32, u32), goal_index: int, skip: int) -> bool {
        &&& forall|i: int|
            0 <= i < grid.tiles@.len() && i != skip && #[trigger] self.seen(i) ==> self.expanded(grid, i) || self.live(
                grid,
                goal,
                i,
            )
        &&& self.seen(goal_index) ==> self.live(grid, goal, goal_index)
        &&& self.estimates_ok(grid, goal)
    }

    /// Taking entry `b` out of the open set keeps the frontier, except for the tile
    /// of a current entry, which is about to be expanded.
    proof fn lemma_frontier_after_pop(
        ws0: &Self,
        ws1: &Self,
        grid: &Grid,
        goal: (u32, u32),
        goal_index: int,
        b: int,
    )
        requires
            ws0.frontier_ok(grid, goal, goal_index, -1),
            0 <= b < ws0.open@.len(),
            ws1.open@ == ws0.open@.update(b, ws0.open@.last()).drop_last(),
            ws1.costs@ == ws0.costs@,
            ws1.generation@ == ws0.generation@,
            ws1.current_gen == ws0.current_gen,
        ensures
            ({
                let e = ws0.open@[b];
                let p = e.position as int;
                let stale = e.estimated_total > ws0.costs@[p] + spec_octile(spec_coordinate(grid.width as int, p), goal);
                &&& stale ==> ws1.frontier_ok(grid, goal, goal_index, -1)
                &&& !stale && p != goal_index ==> ws1.frontier_ok(grid, goal, goal_index, p)
            }),
    {
        reveal(PathfindingWorkspace::live);
        reveal(PathfindingWorkspace::expanded);
        reveal(PathfindingWorkspace::estimates_ok);
        let e = ws0.open@[b];
        let p = e.position as int;
        let stale = e.estimated_total > ws0.costs@[p] + spec_octile(spec_coordinate(grid.width as int, p), goal);
        let last = ws0.open@.len() - 1;
        assert forall|i: int| ws0.live(grid, goal, i) && !(i == p && !stale) implies ws1.live(grid, goal, i) by {
            let j = choose|j: int|
                0 <= j < ws0.open@.len() && (#[trigger] ws0.open@[j]).position == i
                    && ws0.open@[j].estimated_total <= ws0.costs@[i] + spec_octile(
                    spec_coordinate(grid.width as int, i),
                    goal,
                );
            if j == last {
                assert(ws1.open@[b] == ws0.open@[j]);
            } else {
                assert(ws1.open@[j] == ws0.open@[j]);
            }
        }
        assert forall|i: int| ws0.expanded(grid, i) implies ws1.expanded(grid, i) by {
            assert forall|c: (u32, u32)| #[trigger] neighbor_ok(grid, spec_coordinate(grid.width as int, i), c) implies ws1.tried(grid, i, c) by {
                assert(ws0.tried(grid, i, c));
            }
        }
        assert forall|j: int| 0 <= j < ws1.open@.len() implies (#[trigger] ws1.open@[j]).estimated_total
            >= ws1.costs@[ws1.open@[j].position as int] + spec_octile(
            spec_coordinate(grid.width as int, ws1.open@[j].position as int),
            goal,
        ) by {
            if j == b {
                assert(ws1.open@[j] == ws0.open@[last]);
            } else {
                assert(ws1.open@[j] == ws0.open@[j]);
            }
        }
        assert(ws1.estimates_ok(grid, goal));
        let skip = if stale { -1 } else { p };
        assert forall|i: int| 0 <= i < grid.tiles@.len() && i != skip && #[trigger] ws1.seen(i) implies ws1.expanded(grid, i)
            || ws1.live(grid, goal, i) by {
            assert(ws0.seen(i));
        }
        if ws1.seen(goal_index) {
            assert(ws0.seen(goal_index));
        }
        if stale {
            assert(ws1.frontier_ok(grid, goal, goal_index, -1));
        } else if p != goal_index {
            assert(ws1.frontier_ok(grid, goal, goal_index, p));
        }
    }

    /// Lowering the recorded cost of tile `m` and queueing it keeps the frontier and
    /// makes `m` live.
    proof fn lemma_frontier_after_relax(
        ws0: &Self,
        ws1: &Self,
        grid: &Grid,
        goal: (u32, u32),
        goal_index: int,
        skip: int,
        m: int,
        candidate: u128,
    )
        requires
            ws0.frontier_ok(grid, goal, goal_index, skip),
            forall|j: int| 0 <= j < ws0.open@.len() ==> ws0.seen((#[trigger] ws0.open@[j]).position as int),
            0 <= m < ws0.generation@.len(),
            m <= usize::MAX,
            ws0.costs@.len() == ws0.generation@.len(),
            m != skip,
            !ws0.seen(m) || candidate < ws0.costs@[m],
            ws1.current_gen == ws0.current_gen,
            ws1.generation@ == ws0.generation@.update(m, ws0.current_gen),
            ws1.costs@ == ws0.costs@.update(m, candidate),
            ws1.open@ == ws0.open@.push(
                OpenNode {
                    position: m as usize,
                    estimated_total: (candidate + spec_octile(spec_coordinate(grid.width as int, m), goal)) as u128,
                },
            ),
            candidate + spec_octile(spec_coordinate(grid.width as int, m), goal) <= u128::MAX,
        ensures
            ws1.frontier_ok(grid, goal, goal_index, skip),
            ws1.live(grid, goal, m),
            forall|i: int, c: (u32, u32)|
                0 <= i < ws0.costs@.len() && i != m && ws0.tried(grid, i, c) ==> ws1.tried(grid, i, c),
    {
        reveal(PathfindingWorkspace::live);
        reveal(PathfindingWorkspace::expanded);
        reveal(PathfindingWorkspace::estimates_ok);
        let last = ws0.open@.len() as int;
        assert(ws1.open@[last].position == m);
        assert(ws1.live(grid, goal, m));
        assert forall|i: int, c: (u32, u32)|
            0 <= i < ws0.costs@.len() && i != m && ws0.tried(grid, i, c) implies ws1.tried(grid, i, c) by {
            let t = spec_index(grid.width as int, c.0 as int, c.1 as int);
            if t == m {
                assert(ws0.seen(m));
            }
        }
        assert forall|i: int| i != m && ws0.live(grid, goal, i) implies ws1.live(grid, goal, i) by {
            let j = choose|j: int|
                0 <= j < ws0.open@.len() && (#[trigger] ws0.open@[j]).position == i
                    && ws0.open@[j].estimated_total <= ws0.costs@[i] + spec_octile(
                    spec_coordinate(grid.width as int, i),
                    goal,
                );
            assert(ws1.open@[j] == ws0.open@[j]);
        }
        assert forall|i: int| 0 <= i < grid.tiles@.len() && i != skip && #[trigger] ws1.seen(i) implies ws1.expanded(grid, i)
            || ws1.live(grid, goal, i) by {
            if i != m {
                assert(ws0.seen(i));
                if ws0.expanded(grid, i) {
                    assert forall|c: (u32, u32)| #[trigger] neighbor_ok(grid, spec_coordinate(grid.width as int, i), c) implies ws1.tried(grid, i, c) by {
                        assert(ws0.tried(grid, i, c));
                        let t = spec_index(grid.width as int, c.0 as int, c.1 as int);
                        if t == m {
                            assert(ws0.seen(m));
                        }
                    }
                }
            }
        }
        if ws1.seen(goal_index) && goal_index != m {
            assert(ws0.seen(goal_index));
        }
        assert forall|j: int| 0 <= j < ws1.open@.len() implies (#[trigger] ws1.open@[j]).estimated_total
            >= ws1.costs@[ws1.open@[j].position as int] + spec_octile(
            spec_coordinate(grid.width as int, ws1.open@[j].position as int),
            goal,
        ) by {
            if j < last {
                assert(ws1.open@[j] == ws0.open@[j]);
                assert(ws0.seen(ws0.open@[j].position as int));
            }
        }
        assert(ws1.estimates_ok(grid, goal));
    }

    /// Walking a route from the start, the search has reached every tile up to `j` at
    /// no more than the route's cost, or some tile on the way (returned) waits in the
    /// open set with such a cost; `-1` stands for the first case.
    proof fn lemma_route_meets_frontier(
        &self,
        grid: &Grid,
        start: int,
        iterations: int,
        goal: (u32, u32),
        goal_index: int,
        route: Seq<(u32, u32)>,
        j: int,
    ) -> (k: int)
        requires
            grid.wf(),
            self.search_ok(grid, start, iterations),
            self.frontier_ok(grid, goal, goal_index, -1),
            valid_route(grid, route),
            route[0] == spec_coordinate(grid.width as int, start),
            0 <= j < route.len(),
        ensures
            k == -1 ==> ({
                let t = spec_index(grid.width as int, route[j].0 as int, route[j].1 as int);
                self.seen(t) && self.costs@[t] <= route_cost(grid, route.take(j + 1))
            }),
            k != -1 ==> 0 <= k <= j && ({
                let t = spec_index(grid.width as int, route[k].0 as int, route[k].1 as int);
                self.live(grid, goal, t) && self.costs@[t] <= route_cost(grid, route.take(k + 1))
            }),
        decreases j,
    {
        let w = grid.width as int;
        if j == 0 {
            assert(w > 0) by (nonlinear_arith)
                requires 0 <= start < grid.tiles@.len(), grid.tiles@.len() == w * grid.height;
            lemma_coordinate_of_index(w, grid.height as int, start);
            assert(route.take(1).len() == 1);
            -1
        } else {
            let k0 = self.lemma_route_meets_frontier(grid, start, iterations, goal, goal_index, route, j - 1);
            if k0 != -1 {
                k0
            } else {
                let prev = route[j - 1];
                let p = spec_index(w, prev.0 as int, prev.1 as int);
                assert(grid.walkable(prev.0 as int, prev.1 as int));
                lemma_index_in_grid(w, grid.height as int, prev.0 as int, prev.1 as int);
                assert(spec_coordinate(w, p) == prev);
                if self.live(grid, goal, p) {
                    j - 1
                } else {
                    assert(self.expanded(grid, p));
                    reveal(PathfindingWorkspace::expanded);
                    assert(valid_step(grid, route[j - 1], route[j]));
                    assert(self.tried(grid, p, route[j]));
                    lemma_prefix_cost_step(grid, route, j - 1);
                    -1
                }
            }
        }
    }

    /// No route joins the start to the goal once the open set is empty.
    proof fn lemma_exhausted_search(
        &self,
        grid: &Grid,
        start: int,
        iterations: int,
        goal: (u32, u32),
        goal_index: int,
        route: Seq<(u32, u32)>,
    )
        requires
            grid.wf(),
            self.search_ok(grid, start, iterations),
            self.frontier_ok(grid, goal, goal_index, -1),
            self.open@.len() == 0,
            goal_index == spec_index(grid.width as int, goal.0 as int, goal.1 as int),
        ensures
            !route_between(grid, route, spec_coordinate(grid.width as int, start), goal),
    {
        if !route_between(grid, route, spec_coordinate(grid.width as int, start), goal) {
            return;
        }
        reveal(PathfindingWorkspace::live);
        let k = self.lemma_route_meets_frontier(grid, start, iterations, goal, goal_index, route, route.len() - 1);
        if k == -1 {
            assert(self.seen(goal_index));
            assert(self.live(grid, goal, goal_index));
        }
    }

    /// When the goal's current entry pops first, no route to the goal costs less
    /// than the cost recorded for it.
    proof fn lemma_goal_cost_is_least(
        &self,
        grid: &Grid,
        start: int,
        iterations: int,
        goal: (u32, u32),
        goal_index: int,
        b: int,
        route: Seq<(u32, u32)>,
    )
        requires
            grid.wf(),
            self.search_ok(grid, start, iterations),
            self.frontier_ok(grid, goal, goal_index, -1),
            goal_index == spec_index(grid.width as int, goal.0 as int, goal.1 as int),
            spec_coordinate(grid.width as int, goal_index) == goal,
            0 <= b < self.open@.len(),
            self.open@[b].position == goal_index,
            forall|j: int| 0 <= j < self.open@.len() ==> pops_before(self.open@[b], #[trigger] self.open@[j]),
            route_between(grid, route, spec_coordinate(grid.width as int, start), goal),
        ensures
            self.costs@[goal_index] <= route_cost(grid, route),
    {
        let w = grid.width as int;
        let last = route.len() - 1;
        let k0 = self.lemma_route_meets_frontier(grid, start, iterations, goal, goal_index, route, last);
        let k = if k0 == -1 { last } else { k0 };
        assert(route.take(last + 1) =~= route);
        let c = route[k];
        let t = spec_index(w, c.0 as int, c.1 as int);
        assert(grid.walkable(c.0 as int, c.1 as int));
        lemma_index_in_grid(w, grid.height as int, c.0 as int, c.1 as int);
        assert(spec_coordinate(w, t) == c);
        assert(self.live(grid, goal, t));
        reveal(PathfindingWorkspace::live);
        let jj = choose|jj: int|
            0 <= jj < self.open@.len() && (#[trigger] self.open@[jj]).position == t
                && self.open@[jj].estimated_total <= self.costs@[t] + spec_octile(spec_coordinate(w, t), goal);
        assert(pops_before(self.open@[b], self.open@[jj]));
        lemma_estimate_admissible(grid, route, k);
        reveal(PathfindingWorkspace::estimates_ok);
        assert(self.open@[b].estimated_total >= self.costs@[goal_index] + spec_octile(goal, goal));
    }

    /// When an entry whose estimate is current pops first, no route from the start to
    /// its tile costs less than the cost recorded for the tile.
    proof fn lemma_popped_cost_is_least(
        &self,
        grid: &Grid,
        start: int,
        iterations: int,
        goal: (u32, u32),
        goal_index: int,
        b: int,
        route: Seq<(u32, u32)>,
    )
        requires
            grid.wf(),
            self.search_ok(grid, start, iterations),
            self.frontier_ok(grid, goal, goal_index, -1),
            0 <= b < self.open@.len(),
            self.open@[b].estimated_total <= self.costs@[self.open@[b].position as int] + spec_octile(
                spec_coordinate(grid.width as int, self.open@[b].position as int),
                goal,
            ),
            forall|j: int| 0 <= j < self.open@.len() ==> pops_before(self.open@[b], #[trigger] self.open@[j]),
            route_between(
                grid,
                route,
                spec_coordinate(grid.width as int, start),
                spec_coordinate(grid.width as int, self.open@[b].position as int),
            ),
        ensures
            self.costs@[self.open@[b].position as int] <= route_cost(grid, route),
    {
        let w = grid.width as int;
        let i = self.open@[b].position as int;
        let last = route.len() - 1;
        assert(i < grid.tiles@.len());
        assert(w > 0) by (nonlinear_arith)
            requires 0 <= i < grid.tiles@.len(), grid.tiles@.len() == w * grid.height;
        lemma_coordinate_of_index(w, grid.height as int, i);
        let k = self.lemma_route_meets_frontier(grid, start, iterations, goal, goal_index, route, last);
        assert(route.take(last + 1) =~= route);
        if k != -1 {
            let c = route[k];
            let t = spec_index(w, c.0 as int, c.1 as int);
            assert(grid.walkable(c.0 as int, c.1 as int));
            lemma_index_in_grid(w, grid.height as int, c.0 as int, c.1 as int);
            assert(spec_coordinate(w, t) == c);
            reveal(PathfindingWorkspace::live);
            let jj = choose|jj: int|
                0 <= jj < self.open@.len() && (#[trigger] self.open@[jj]).position == t
                    && self.open@[jj].estimated_total <= self.costs@[t] + spec_octile(spec_coordinate(w, t), goal);
            assert(pops_before(self.open@[b], self.open@[jj]));
            lemma_estimate_along(grid, route, k, goal);
            reveal(PathfindingWorkspace::estimates_ok);
            assert(self.open@[b].estimated_total >= self.costs@[i] + spec_octile(spec_coordinate(w, i), goal));
        }
    }

    /// The bookkeeping behind the expansion bound: the tiles expanded so far (`expanded`)
    /// carry least costs and no current entry; every reached tile has a route from the
    /// start (`routes`) costing no more than its recorded cost; and no two entries for
    /// one tile carry the same estimate.
    #[verifier::opaque]
    closed spec fn tally_ok(
        &self,
        grid: &Grid,
        start: (u32, u32),
        goal: (u32, u32),
        expanded: Set<int>,
        routes: Map<int, Seq<(u32, u32)>>,
    ) -> bool {
        let w = grid.width as int;
        let n = grid.tiles@.len() as int;
        &&& expanded.finite()
        &&& forall|x: int| #[trigger] expanded.contains(x) ==> 0 <= x < n && self.seen(x)
        &&& forall|x: int, q: Seq<(u32, u32)>|
            #![trigger expanded.contains(x), route_between(grid, q, start, spec_coordinate(w, x))]
            expanded.contains(x) && route_between(grid, q, start, spec_coordinate(w, x)) ==> self.costs@[x] <= route_cost(grid, q)
        &&& forall|x: int, j: int|
            #![trigger expanded.contains(x), self.open@[j]]
            expanded.contains(x) && 0 <= j < self.open@.len() && self.open@[j].position == x ==> self.open@[j].estimated_total
                > self.costs@[x] + spec_octile(spec_coordinate(w, x), goal)
        &&& forall|i: int|
            0 <= i < n && #[trigger] self.seen(i) ==> routes.dom().contains(i) && route_between(
                grid,
                routes[i],
                start,
                spec_coordinate(w, i),
            ) && route_cost(grid, routes[i]) <= self.costs@[i]
        &&& forall|j1: int, j2: int|
            0 <= j1 < j2 < self.open@.len() && (#[trigger] self.open@[j1]).position == (#[trigger] self.open@[j2]).position
                ==> self.open@[j1].estimated_total != self.open@[j2].estimated_total
    }

    /// Taking entry `b` out of the open set keeps the bookkeeping; a current entry's
    /// tile, about to be expanded, joins the expanded tiles for the first time.
    proof fn lemma_tally_after_pop(
        ws0: &Self,
        ws1: &Self,
        grid: &Grid,
        start: int,
        iterations: int,
        goal: (u32, u32),
        goal_index: int,
        b: int,
        expanded: Set<int>,
        routes: Map<int, Seq<(u32, u32)>>,
    )
        requires
            grid.wf(),
            ws0.search_ok(grid, start, iterations),
            ws0.frontier_ok(grid, goal, goal_index, -1),
            ws0.tally_ok(grid, spec_coordinate(grid.width as int, start), goal, expanded, routes),
            0 <= b < ws0.open@.len(),
            forall|j: int| 0 <= j < ws0.open@.len() ==> pops_before(ws0.open@[b], #[trigger] ws0.open@[j]),
            ws1.open@ == ws0.open@.update(b, ws0.open@.last()).drop_last(),
            ws1.costs@ == ws0.costs@,
            ws1.generation@ == ws0.generation@,
            ws1.current_gen == ws0.current_gen,
        ensures
            ({
                let e = ws0.open@[b];
                let p = e.position as int;
                let stale = e.estimated_total > ws0.costs@[p] + spec_octile(spec_coordinate(grid.width as int, p), goal);
                &&& stale ==> ws1.tally_ok(grid, spec_coordinate(grid.width as int, start), goal, expanded, routes)
                &&& !stale ==> !expanded.contains(p) && ws1.tally_ok(
                    grid,
                    spec_coordinate(grid.width as int, start),
                    goal,
                    expanded.insert(p),
                    routes,
                )
            }),
    {
        reveal(PathfindingWorkspace::tally_ok);
        reveal(PathfindingWorkspace::estimates_ok);
        let w = grid.width as int;
        let st = spec_coordinate(w, start);
        let e = ws0.open@[b];
        let p = e.position as int;
        let stale = e.estimated_total > ws0.costs@[p] + spec_octile(spec_coordinate(w, p), goal);
        let last = ws0.open@.len() - 1;
        assert forall|j: int| 0 <= j < ws1.open@.len() implies (j == b && ws1.open@[j] == ws0.open@[last] && last != b) || (
        j != b && ws1.open@[j] == ws0.open@[j]) by {}
        let xs = if stale { expanded } else { expanded.insert(p) };
        if !stale {
            assert(!expanded.contains(p)) by {
                if expanded.contains(p) {
                    assert(ws0.open@[b].position == p);
                }
            }
            assert forall|q: Seq<(u32, u32)>| route_between(grid, q, st, spec_coordinate(w, p)) implies ws0.costs@[p]
                <= route_cost(grid, q) by {
                ws0.lemma_popped_cost_is_least(grid, start, iterations, goal, goal_index, b, q);
            }
        }
        assert forall|x: int, j: int|
            #![trigger xs.contains(x), ws1.open@[j]]
            xs.contains(x) && 0 <= j < ws1.open@.len() && ws1.open@[j].position == x implies ws1.open@[j].estimated_total
                > ws1.costs@[x] + spec_octile(spec_coordinate(w, x), goal) by {
            let j0 = if j == b { last } else { j };
            assert(ws1.open@[j] == ws0.open@[j0]);
            assert(j0 != b);
            if !stale && x == p {
                assert(ws0.open@[j0].estimated_total != ws0.open@[b].estimated_total);
                assert(ws0.open@[j0].estimated_total >= ws0.costs@[x] + spec_octile(spec_coordinate(w, x), goal));
            } else {
                assert(expanded.contains(x));
            }
        }
        assert forall|j1: int, j2: int|
            0 <= j1 < j2 < ws1.open@.len() && (#[trigger] ws1.open@[j1]).position == (#[trigger] ws1.open@[j2]).position
                implies ws1.open@[j1].estimated_total != ws1.open@[j2].estimated_total by {
            let a = if j1 == b { last } else { j1 };
            let c = if j2 == b { last } else { j2 };
            assert(ws1.open@[j1] == ws0.open@[a]);
            assert(ws1.open@[j2] == ws0.open@[c]);
            if a < c {
                assert(ws0.open@[a].estimated_total != ws0.open@[c].estimated_total);
            } else {
                assert(ws0.open@[c].estimated_total != ws0.open@[a].estimated_total);
            }
        }
        assert forall|i: int| 0 <= i < grid.tiles@.len() && #[trigger] ws1.seen(i) implies routes.dom().contains(i)
            && route_between(grid, routes[i], st, spec_coordinate(w, i)) && route_cost(grid, routes[i]) <= ws1.costs@[i] by {
            assert(ws0.seen(i));
        }
        assert forall|x: int| #[trigger] xs.contains(x) implies 0 <= x < grid.tiles@.len() && ws1.seen(x) by {
            if x == p {
                assert(ws0.open@[b].position < grid.tiles@.len());
            }
        }
        assert forall|x: int, q: Seq<(u32, u32)>|
            #![trigger xs.contains(x), route_between(grid, q, st, spec_coordinate(w, x))]
            xs.contains(x) && route_between(grid, q, st, spec_coordinate(w, x)) implies ws1.costs@[x] <= route_cost(grid, q) by {
        }
        assert(ws1.tally_ok(grid, st, goal, xs, routes));
    }

    /// Lowering the recorded cost of a neighbour `m` of an expanded tile `cur` keeps
    /// the bookkeeping, `m` reached along the route to `cur`; `m` was never expanded.
    proof fn lemma_tally_after_relax(
        ws0: &Self,
        ws1: &Self,
        grid: &Grid,
        start: (u32, u32),
        goal: (u32, u32),
        expanded: Set<int>,
        routes: Map<int, Seq<(u32, u32)>>,
        cur: int,
        m: int,
        candidate: u128,
    )
        requires
            ws0.tally_ok(grid, start, goal, expanded, routes),
            ws0.estimates_ok(grid, goal),
            forall|j: int| 0 <= j < ws0.open@.len() ==> ws0.seen((#[trigger] ws0.open@[j]).position as int),
            0 <= cur < grid.tiles@.len(),
            0 <= m < grid.tiles@.len(),
            grid.tiles@.len() <= ws0.generation@.len(),
            ws0.costs@.len() == ws0.generation@.len(),
            m <= usize::MAX,
            ws0.seen(cur),
            m != cur,
            neighbor_ok(grid, spec_coordinate(grid.width as int, cur), spec_coordinate(grid.width as int, m)),
            candidate == ws0.costs@[cur] + step_value(
                grid,
                spec_coordinate(grid.width as int, cur),
                spec_coordinate(grid.width as int, m),
            ),
            !ws0.seen(m) || candidate < ws0.costs@[m],
            ws1.current_gen == ws0.current_gen,
            ws1.generation@ == ws0.generation@.update(m, ws0.current_gen),
            ws1.costs@ == ws0.costs@.update(m, candidate),
            ws1.open@ == ws0.open@.push(
                OpenNode {
                    position: m as usize,
                    estimated_total: (candidate + spec_octile(spec_coordinate(grid.width as int, m), goal)) as u128,
                },
            ),
            candidate + spec_octile(spec_coordinate(grid.width as int, m), goal) <= u128::MAX,
        ensures
            !expanded.contains(m),
            ws1.tally_ok(
                grid,
                start,
                goal,
                expanded,
                routes.insert(m, routes[cur].push(spec_coordinate(grid.width as int, m))),
            ),
    {
        reveal(PathfindingWorkspace::tally_ok);
        reveal(PathfindingWorkspace::estimates_ok);
        let w = grid.width as int;
        let rc = routes[cur];
        let cm = spec_coordinate(w, m);
        let q = rc.push(cm);
        assert(route_between(grid, rc, start, spec_coordinate(w, cur)));
        assert(q.drop_last() =~= rc);
        assert(route_between(grid, q, start, cm)) by {
            assert(valid_step(grid, rc.last(), cm));
            assert forall|i: int| 0 <= i < q.len() - 1 implies valid_step(grid, #[trigger] q[i], q[i + 1]) by {
                if i < rc.len() - 1 {
                    assert(q[i] == rc[i] && q[i + 1] == rc[i + 1]);
                }
            }
        }
        assert(route_cost(grid, q) <= candidate);
        if expanded.contains(m) {
            assert(ws0.costs@[m] <= route_cost(grid, q));
        }
        let routes1 = routes.insert(m, q);
        let last = ws0.open@.len() as int;
        assert forall|x: int, j: int|
            #![trigger expanded.contains(x), ws1.open@[j]]
            expanded.contains(x) && 0 <= j < ws1.open@.len() && ws1.open@[j].position == x implies ws1.open@[j].estimated_total
                > ws1.costs@[x] + spec_octile(spec_coordinate(w, x), goal) by {
            if j < last {
                assert(ws1.open@[j] == ws0.open@[j]);
            }
        }
        assert forall|j1: int, j2: int|
            0 <= j1 < j2 < ws1.open@.len() && (#[trigger] ws1.open@[j1]).position == (#[trigger] ws1.open@[j2]).position
                implies ws1.open@[j1].estimated_total != ws1.open@[j2].estimated_total by {
            assert(ws1.open@[j1] == ws0.open@[j1]);
            if j2 < last {
                assert(ws1.open@[j2] == ws0.open@[j2]);
            } else {
                assert(ws0.seen(ws0.open@[j1].position as int));
                assert(ws0.open@[j1].estimated_total >= ws0.costs@[m] + spec_octile(cm, goal));
            }
        }
        assert forall|i: int| 0 <= i < grid.tiles@.len() && #[trigger] ws1.seen(i) implies routes1.dom().contains(i)
            && route_between(grid, routes1[i], start, spec_coordinate(w, i)) && route_cost(grid, routes1[i]) <= ws1.costs@[i] by {
            if i != m {
                assert(ws0.seen(i));
            }
        }
        assert forall|x: int| #[trigger] expanded.contains(x) implies 0 <= x < grid.tiles@.len() && ws1.seen(x) by {
            assert(ws0.seen(x));
        }
        assert forall|x: int, r: Seq<(u32, u32)>|
            #![trigger expanded.contains(x), route_between(grid, r, start, spec_coordinate(w, x))]
            expanded.contains(x) && route_between(grid, r, start, spec_coordinate(w, x)) implies ws1.costs@[x] <= route_cost(grid, r) by {
            assert(x != m);
        }
        assert(ws1.tally_ok(grid, start, goal, expanded, routes1));
    }

    /// An empty workspace whose generation counter starts at `current_gen`.
    pub fn with_generation(current_gen: u32) -> (r: Self)
        ensures
            r.wf(),
            r.spec_current_gen() == current_gen,
            r.spec_tile_slots() == 0,
            r.spec_open_len() == 0,
            r.spec_expansions() == 0,
    {
        PathfindingWorkspace {
            open: Vec::new(),
            came_from: Vec::new(),
            costs: Vec::new(),
            generation: Vec::new(),
            current_gen,
            expansions: 0,
        }
    }

    /// Starts a new search over `tile_count` tiles: nothing is marked as reached.
    fn prepare(&mut self, tile_count: usize)
        requires
            old(self).wf(),
        ensures
            final(self).wf(),
            final(self).expansions == old(self).expansions,
            final(self).open@.len() == 0,
            final(self).generation@.len() >= tile_count,
            forall|i: int| 0 <= i < final(self).generation@.len() ==> !final(self).seen(i),
    {
        self.open.clear();
        if self.current_gen == u32::MAX {
            self.current_gen = 1;
            let mut i: usize = 0;
            while i < self.generation.len()
                invariant
                    0 <= i <= self.generation@.len(),
                    self.came_from@.len() == self.costs@.len(),
                    self.costs@.len() == self.generation@.len(),
                    self.current_gen == 1,
                    self.open@.len() == 0,
                    self.expansions == old(self).expansions,
                    forall|j: int| 0 <= j < i ==> #[trigger] self.generation@[j] == 0,
                decreases self.generation@.len() - i,
            {
                self.generation.set(i, 0);
                i += 1;
            }
        } else {
            self.current_gen = self.current_gen + 1;
        }
        let ghost gen = self.current_gen;
        while self.generation.len() < tile_count
            invariant
                self.came_from@.len() == self.costs@.len(),
                self.costs@.len() == self.generation@.len(),
                self.current_gen == gen,
                self.open@.len() == 0,
                self.expansions == old(self).expansions,
                gen >= 1,
                forall|j: int| 0 <= j < self.generation@.len() ==> #[trigger] self.generation@[j] < gen,
            decreases tile_count - self.generation@.len(),
        {
            self.came_from.push(None);
            self.costs.push(u128::MAX);
            self.generation.push(0);
        }
    }
}

/// A route read backwards along links whose recorded costs grow by at least each
/// move's cost costs no more than the growth between its two ends.
proof fn lemma_reversed_chain_cost(
    grid: &Grid,
    route: Seq<(u32, u32)>,
    reversed: Seq<(u32, u32)>,
    ids: Seq<int>,
    recorded: Seq<u128>,
)
    requires
        route.len() == reversed.len(),
        ids.len() == reversed.len(),
        reversed.len() >= 1,
        forall|j: int| 0 <= j < route.len() ==> #[trigger] route[j] == reversed[reversed.len() - 1 - j],
        forall|i: int| 0 <= i < ids.len() ==> 0 <= #[trigger] ids[i] < recorded.len(),
        forall|i: int|
            #![trigger ids[i]]
            0 <= i < ids.len() - 1 ==> recorded[ids[i + 1]] + step_value(grid, reversed[i + 1], reversed[i])
                <= recorded[ids[i]],
    ensures
        route_cost(grid, route) <= recorded[ids[0]] - recorded[ids[ids.len() - 1]],
{
    let len = route.len() as int;
    let costs = Seq::new(len as nat, |j: int| recorded[ids[len - 1 - j]] as int);
    assert forall|j: int|
        #![trigger costs[j]]
        0 <= j < route.len() - 1 implies costs[j] + step_value(grid, route[j], route[j + 1]) <= costs[j + 1] by {
        let i = len - 2 - j;
        assert(route[j] == reversed[i + 1]);
        assert(route[j + 1] == reversed[i]);
        assert(ids[i] == ids[len - 1 - (j + 1)]);
        assert(0 <= ids[i] < recorded.len());
    }
    lemma_chain_cost(grid, route, costs, len - 1);
    assert(route.take(len) =~= route);
}

/// Follows the recorded predecessors from `goal` back to `start`.
#[verifier::spinoff_prover]
#[verifier::rlimit(40)]
fn reconstruct_path(
    grid: &Grid,
    workspace: &PathfindingWorkspace,
    start: usize,
    goal: usize,
    Ghost(iterations): Ghost<int>,
) -> (r: Vec<(u32, u32)>)
    requires
        grid.wf(),
        workspace.search_ok(grid, start as int, iterations),
        goal < grid.tiles@.len(),
        workspace.seen(goal as int),
    ensures
        route_between(
            grid,
            r@,
            spec_coordinate(grid.width as int, start as int),
            spec_coordinate(grid.width as int, goal as int),
        ),
        distinct_tiles(r@),
        route_cost(grid, r@) <= workspace.costs@[goal as int],
{
    let ghost w = grid.width as int;
    let mut reversed: Vec<(u32, u32)> = Vec::new();
    reversed.push(coordinate(grid, goal));
    let mut current = goal;
    let ghost mut ids: Seq<int> = seq![goal as int];
    while current != start
        invariant
            ids.len() == reversed@.len(),
            ids.last() == current as int,
            ids[0] == goal as int,
            forall|i: int| 0 <= i < ids.len() ==> 0 <= #[trigger] ids[i] < grid.tiles@.len() && reversed@[i]
                == spec_coordinate(w, ids[i]),
            forall|i: int, j: int| 0 <= i < j < ids.len() ==> workspace.costs@[ids[i]] > workspace.costs@[ids[j]],
            forall|i: int|
                #![trigger ids[i]]
                0 <= i < ids.len() - 1 ==> workspace.costs@[ids[i + 1]] + step_value(grid, reversed@[i + 1], reversed@[i])
                    <= workspace.costs@[ids[i]],
            grid.wf(),
            workspace.search_ok(grid, start as int, iterations),
            w == grid.width as int,
            current < grid.tiles@.len(),
            workspace.seen(current as int),
            reversed@.len() >= 1,
            reversed@[0] == spec_coordinate(w, goal as int),
            reversed@.last() == spec_coordinate(w, current as int),
            forall|i: int| 0 <= i < reversed@.len() ==> grid.walkable(
                #[trigger] reversed@[i].0 as int,
                reversed@[i].1 as int,
            ),
            forall|i: int| 0 <= i < reversed@.len() - 1 ==> valid_step(
                grid,
                reversed@[i + 1],
                #[trigger] reversed@[i],
            ),
        decreases workspace.costs@[current as int],
    {
        assert(workspace.seen(current as int));
        assert(current as int != start as int);
        assert(workspace.search_ok(grid, start as int, iterations));
        assert(0 <= (current as int) && (current as int) < (grid.tiles@.len() as int) && workspace.seen(current as int));
        assert(workspace.node_ok(grid, start as int, iterations, current as int));
        assert(workspace.came_from@[current as int] is Some);
        let previous = workspace.came_from[current].unwrap();
        let ghost before = reversed@;
        reversed.push(coordinate(grid, previous));
        proof {
            let ids0 = ids;
            ids = ids.push(previous as int);
            assert forall|i: int, j: int| 0 <= i < j < ids.len() implies workspace.costs@[ids[i]] > workspace.costs@[ids[j]] by {
                if j == ids.len() - 1 {
                    if i < ids0.len() - 1 {
                        assert(workspace.costs@[ids0[i]] > workspace.costs@[ids0[ids0.len() - 1]]);
                    }
                } else {
                    assert(ids[i] == ids0[i] && ids[j] == ids0[j]);
                }
            }
            assert forall|i: int| 0 <= i < ids.len() implies 0 <= #[trigger] ids[i] < grid.tiles@.len() && reversed@[i]
                == spec_coordinate(w, ids[i]) by {
                if i < ids0.len() {
                    assert(ids[i] == ids0[i] && reversed@[i] == before[i]);
                }
            }
            assert forall|i: int|
                #![trigger ids[i]]
                0 <= i < ids.len() - 1 implies workspace.costs@[ids[i + 1]] + step_value(grid, reversed@[i + 1], reversed@[i])
                    <= workspace.costs@[ids[i]] by {
                if i < ids0.len() - 1 {
                    assert(ids[i] == ids0[i] && ids[i + 1] == ids0[i + 1]);
                    assert(reversed@[i] == before[i] && reversed@[i + 1] == before[i + 1]);
                } else {
                    assert(ids[i] == current as int && ids[i + 1] == previous as int);
                    assert(reversed@[i] == spec_coordinate(w, current as int));
                }
            }
            assert forall|i: int| 0 <= i < reversed@.len() - 1 implies valid_step(
                grid,
                reversed@[i + 1],
                #[trigger] reversed@[i],
            ) by {
                if i < before.len() - 1 {
                    assert(reversed@[i] == before[i]);
                    assert(reversed@[i + 1] == before[i + 1]);
                }
            }
            assert forall|i: int| 0 <= i < reversed@.len() implies grid.walkable(
                #[trigger] reversed@[i].0 as int,
                reversed@[i].1 as int,
            ) by {
                if i < before.len() {
                    assert(reversed@[i] == before[i]);
                }
            }
        }
        current = previous;
    }
    let len = reversed.len();
    let mut route: Vec<(u32, u32)> = Vec::new();
    let mut k: usize = 0;
    while k < len
        invariant
            len == reversed@.len(),
            0 <= k <= len,
            route@.len() == k,
            forall|j: int| 0 <= j < k ==> #[trigger] route@[j] == reversed@[len - 1 - j],
        decreases len - k,
    {
        route.push(reversed[len - 1 - k]);
        k += 1;
    }
    proof {
        assert forall|j: int| 0 <= j < route@.len() - 1 implies valid_step(
            grid,
            #[trigger] route@[j],
            route@[j + 1],
        ) by {
            let i = len - 2 - j;
            assert(route@[j] == reversed@[i + 1]);
            assert(route@[j + 1] == reversed@[i]);
        }
        assert forall|j: int| 0 <= j < route@.len() implies grid.walkable(
            route@[j].0 as int,
            route@[j].1 as int,
        ) by {
            assert(route@[j] == reversed@[len - 1 - j]);
        }
        assert forall|a: int, b: int| 0 <= a < b < route@.len() implies route@[a] != route@[b] by {
            let ia = len - 1 - a;
            let ib = len - 1 - b;
            assert(route@[a] == reversed@[ia] && route@[b] == reversed@[ib]);
            assert(workspace.costs@[ids[ib]] > workspace.costs@[ids[ia]]);
            lemma_coordinate_injective(grid, ids[ia], ids[ib]);
        }
        assert(workspace.costs@.len() >= grid.tiles@.len());
        lemma_reversed_chain_cost(grid, route@, reversed@, ids, workspace.costs@);
        assert(ids[ids.len() - 1] == start as int);
        assert(workspace.costs@[start as int] == 0);
    }
    route
}

#[verifier::spinoff_prover]
#[verifier::rlimit(100)]
/// A* from `start` to `goal`, giving up after `max_iterations` expansions
/// (`DEFAULT_MAX_ITERATIONS` when `None`). It answers `None` for ends that a route
/// joins only after using up every expansion it was allowed, which the workspace
/// records, and only when that limit is at most eight times the number of tiles: no
/// search needs more expansions than that.
pub fn find_path_with_workspace_and_limit(
    workspace: &mut PathfindingWorkspace,
    grid: &Grid,
    start: (u32, u32),
    goal: (u32, u32),
    max_iterations: Option<usize>,
) -> (r: Option<Vec<(u32, u32)>>)
    requires
        grid.wf(),
        old(workspace).wf(),
    ensures
        final(workspace).wf(),
        search_result_ok(grid, start, goal, match r { Some(v) => Some(v@), None => None }),
        final(workspace).spec_expansions() <= expansion_limit(max_iterations),
        r is None && trivial_search_outcome(grid, start, goal) is None && reachable(grid, start, goal)
            ==> final(workspace).spec_expansions() == expansion_limit(max_iterations),
        r is None && trivial_search_outcome(grid, start, goal) is None && reachable(grid, start, goal)
            ==> expansion_limit(max_iterations) <= 8 * grid.tiles@.len(),
{
    workspace.expansions = 0;
    let start_walkable = grid.is_walkable_at(start.0, start.1);
    let goal_walkable = grid.is_walkable_at(goal.0, goal.1);
    if !start_walkable || !goal_walkable {
        return None;
    }
    if start.0 == goal.0 && start.1 == goal.1 {
        let mut single = Vec::new();
        single.push(start);
        proof {
            assert(single@ =~= seq![start]);
            assert forall|other: Seq<(u32, u32)>| route_between(grid, other, start, goal) implies route_cost(
                grid,
                single@,
            ) <= route_cost(grid, other) by {
                lemma_route_cost_nonnegative(grid, other);
            }
        }
        return Some(single);
    }
    match (grid.region_id_at(start.0, start.1), grid.region_id_at(goal.0, goal.1)) {
        (Some(start_region), Some(goal_region)) => {
            if start_region != goal_region {
                return None;
            }
        },
        _ => {},
    }
    let max_iters = match max_iterations {
        Some(limit) => limit,
        None => DEFAULT_MAX_ITERATIONS,
    };
    let ghost w = grid.width as int;
    let ghost n = grid.tiles@.len() as int;
    let start_index = tile_index(grid, start);
    let goal_index = tile_index(grid, goal);
    proof {
        lemma_index_in_grid(grid.width as int, grid.height as int, start.0 as int, start.1 as int);
        lemma_index_in_grid(grid.width as int, grid.height as int, goal.0 as int, goal.1 as int);
        assert(spec_coordinate(w, start_index as int) == start);
        assert(spec_coordinate(w, goal_index as int) == goal);
    }
    workspace.prepare(grid.tiles.len());
    let ghost prepared = *workspace;
    let generation = workspace.current_gen;
    workspace.generation.set(start_index, generation);
    workspace.costs.set(start_index, 0);
    workspace.open.push(OpenNode { position: start_index, estimated_total: octile(start, goal) as u128 });
    let mut iterations: usize = 0;
    proof {
        assert(workspace.seen(start_index as int));
        assert forall|i: int| 0 <= i < n && #[trigger] workspace.seen(i) implies i == start_index as int by {
            if i != start_index as int {
                assert(!prepared.seen(i));
                assert(workspace.generation@[i] == prepared.generation@[i]);
            }
        }
        assert forall|i: int| 0 <= i < workspace.generation@.len() implies #[trigger] workspace.generation@[i] <= workspace.current_gen by {
            if i != start_index as int {
                assert(workspace.generation@[i] == prepared.generation@[i]);
            }
        }
        reveal(PathfindingWorkspace::live);
        reveal(PathfindingWorkspace::estimates_ok);
        assert(workspace.open@[0].position == start_index);
        assert(workspace.live(grid, goal, start_index as int));
        assert(goal_index != start_index) by {
            lemma_index_in_grid(grid.width as int, grid.height as int, start.0 as int, start.1 as int);
            lemma_index_in_grid(grid.width as int, grid.height as int, goal.0 as int, goal.1 as int);
        }
        assert(workspace.estimates_ok(grid, goal));
        assert(workspace.frontier_ok(grid, goal, goal_index as int, -1));
    }
    let ghost mut pushes: int = 1;
    let ghost mut expanded_set: Set<int> = Set::empty();
    let ghost mut routes: Map<int, Seq<(u32, u32)>> = map![start_index as int => seq![start]];
    proof {
        reveal(PathfindingWorkspace::tally_ok);
        assert(route_cost(grid, seq![start]) == 0);
        assert forall|i: int| 0 <= i < n && #[trigger] workspace.seen(i) implies routes.dom().contains(i) && route_between(
            grid,
            routes[i],
            start,
            spec_coordinate(w, i),
        ) && route_cost(grid, routes[i]) <= workspace.costs@[i] by {
            assert(i == start_index as int);
        }
        assert(workspace.tally_ok(grid, start, goal, expanded_set, routes));
    }
    loop
        invariant
            grid.wf(),
            w == grid.width as int,
            n == grid.tiles@.len() as int,
            start_index == spec_index(w, start.0 as int, start.1 as int),
            goal_index == spec_index(w, goal.0 as int, goal.1 as int),
            spec_coordinate(w, start_index as int) == start,
            spec_coordinate(w, goal_index as int) == goal,
            goal_index < n,
            iterations <= max_iters,
            trivial_search_outcome(grid, start, goal) is None,
            workspace.search_ok(grid, start_index as int, iterations as int),
            workspace.frontier_ok(grid, goal, goal_index as int, -1),
            max_iters == expansion_limit(max_iterations),
            workspace.expansions == 0,
            workspace.tally_ok(grid, start, goal, expanded_set, routes),
            workspace.open@.len() + iterations == pushes,
            pushes <= 1 + 8 * expanded_set.len(),
        decreases max_iters - iterations,
    {
        let ghost ws0 = *workspace;
        let ghost iterations0 = iterations as int;
        let current = match pop_best(&mut workspace.open) {
            None => {
                proof {
                    assert forall|other: Seq<(u32, u32)>| !route_between(grid, other, start, goal) by {
                        ws0.lemma_exhausted_search(grid, start_index as int, iterations0, goal, goal_index as int, other);
                    }
                }
                workspace.expansions = iterations;
                return None;
            },
            Some(node) => node,
        };
        let ghost b = choose|b: int|
            0 <= b < ws0.open@.len() && ws0.open@[b] == current && workspace.open@ == ws0.open@.update(
                b,
                ws0.open@.last(),
            ).drop_last();
        proof {
            PathfindingWorkspace::lemma_frontier_after_pop(&ws0, &*workspace, grid, goal, goal_index as int, b);
            PathfindingWorkspace::lemma_tally_after_pop(
                &ws0,
                &*workspace,
                grid,
                start_index as int,
                iterations0,
                goal,
                goal_index as int,
                b,
                expanded_set,
                routes,
            );
        }
        if iterations >= max_iters {
            proof {
                reveal(PathfindingWorkspace::tally_ok);
                vstd::set_lib::lemma_int_range(0, n);
                assert(expanded_set.subset_of(vstd::set_lib::set_int_range(0, n)));
                vstd::set_lib::lemma_len_subset(expanded_set, vstd::set_lib::set_int_range(0, n));
            }
            workspace.expansions = iterations;
            return None;
        }
        iterations += 1;
        proof {
            let k = choose|k: int| 0 <= k < ws0.open@.len() && ws0.open@[k] == current;
            assert(ws0.open@[k].position < n);
            assert forall|j: int| 0 <= j < workspace.open@.len() implies {
                &&& (#[trigger] workspace.open@[j]).position < n
                &&& workspace.seen(workspace.open@[j].position as int)
            } by {
                assert(ws0.open@.contains(workspace.open@[j]));
                let k2 = choose|k2: int| 0 <= k2 < ws0.open@.len() && ws0.open@[k2] == workspace.open@[j];
                assert(ws0.open@[k2].position < n);
            }
            assert forall|i: int| 0 <= i < n && #[trigger] workspace.seen(i) implies workspace.node_ok(grid, start_index as int, iterations as int, i) by {
                assert(ws0.seen(i));
                assert(ws0.node_ok(grid, start_index as int, iterations - 1, i));
                assert(workspace.costs@[i] <= (iterations - 1) * MAX_STEP_COST);
                assert((iterations - 1) * MAX_STEP_COST <= iterations * MAX_STEP_COST) by (nonlinear_arith)
                    requires iterations >= 1;
            }
        }
        let current_cost = workspace.costs[current.position];
        let current_coordinate = coordinate(grid, current.position);
        let best_estimate = current_cost + octile(current_coordinate, goal) as u128;
        if current.estimated_total > best_estimate {
            continue;
        }
        if current.position == goal_index {
            let route = reconstruct_path(grid, workspace, start_index, goal_index, Ghost(iterations as int));
            proof {
                assert forall|other: Seq<(u32, u32)>| route_between(grid, other, start, goal) implies route_cost(
                    grid,
                    route@,
                ) <= route_cost(grid, other) by {
                    ws0.lemma_goal_cost_is_least(grid, start_index as int, iterations0, goal, goal_index as int, b, other);
                }
            }
            workspace.expansions = iterations;
            return Some(route);
        }
        let neighbors = neighbors_8dir(grid, current_coordinate);
        proof {
            let old_set = expanded_set;
            assert(old_set.finite()) by {
                reveal(PathfindingWorkspace::tally_ok);
            }
            assert(!old_set.contains(current.position as int));
            expanded_set = old_set.insert(current.position as int);
            assert(expanded_set.len() == old_set.len() + 1);
        }
        let mut k: usize = 0;
        while k < neighbors.len()
            invariant
                grid.wf(),
                w == grid.width as int,
                n == grid.tiles@.len() as int,
                spec_coordinate(w, start_index as int) == start,
                spec_coordinate(w, goal_index as int) == goal,
                goal_index < n,
                iterations <= max_iters,
                1 <= iterations,
                trivial_search_outcome(grid, start, goal) is None,
                workspace.search_ok(grid, start_index as int, iterations as int),
                current.position < n,
                workspace.seen(current.position as int),
                workspace.costs@[current.position as int] == current_cost,
                current_cost <= (iterations - 1) * MAX_STEP_COST,
                current_coordinate == spec_coordinate(w, current.position as int),
                grid.in_bounds(current_coordinate.0 as int, current_coordinate.1 as int),
                grid.walkable(current_coordinate.0 as int, current_coordinate.1 as int),
                forall|m: (u32, u32)| neighbors@.contains(m) <==> neighbor_ok(grid, current_coordinate, m),
                current.position != goal_index,
                workspace.frontier_ok(grid, goal, goal_index as int, current.position as int),
                forall|q: int| 0 <= q < k ==> workspace.tried(grid, current.position as int, #[trigger] neighbors@[q]),
                max_iters == expansion_limit(max_iterations),
                workspace.expansions == 0,
                workspace.tally_ok(grid, start, goal, expanded_set, routes),
                expanded_set.contains(current.position as int),
                workspace.open@.len() + iterations == pushes,
                pushes + 8 <= 1 + 8 * expanded_set.len() + k,
                neighbors@.len() <= 8,
                k <= neighbors@.len(),
            decreases neighbors@.len() - k,
        {
            let neighbor = neighbors[k];
            assert(neighbors@.contains(neighbor));
            let neighbor_index = tile_index(grid, neighbor);
            proof {
                lemma_index_in_grid(grid.width as int, grid.height as int, neighbor.0 as int, neighbor.1 as int);
                assert(spec_coordinate(w, neighbor_index as int) == neighbor);
                lemma_index_in_grid(grid.width as int, grid.height as int, current_coordinate.0 as int, current_coordinate.1 as int);
                assert(neighbor_index != current.position);
            }
            match step_cost(grid, current_coordinate, neighbor) {
                None => {
                    proof {
                        lemma_step_cost_of_move(grid, current_coordinate, neighbor);
                    }
                },
                Some(step) => {
                    let candidate_cost = current_cost + step as u128;
                    if workspace.generation[neighbor_index] != workspace.current_gen
                        || candidate_cost < workspace.costs[neighbor_index] {
                        let ghost before = *workspace;
                        let generation = workspace.current_gen;
                        workspace.generation.set(neighbor_index, generation);
                        workspace.costs.set(neighbor_index, candidate_cost);
                        workspace.came_from.set(neighbor_index, Some(current.position));
                        let estimate = candidate_cost + octile(neighbor, goal) as u128;
                        workspace.open.push(OpenNode { position: neighbor_index, estimated_total: estimate });
                        proof {
                            PathfindingWorkspace::lemma_frontier_after_relax(
                                &before,
                                &*workspace,
                                grid,
                                goal,
                                goal_index as int,
                                current.position as int,
                                neighbor_index as int,
                                candidate_cost,
                            );
                            PathfindingWorkspace::lemma_tally_after_relax(
                                &before,
                                &*workspace,
                                grid,
                                start,
                                goal,
                                expanded_set,
                                routes,
                                current.position as int,
                                neighbor_index as int,
                                candidate_cost,
                            );
                            routes = routes.insert(neighbor_index as int, routes[current.position as int].push(neighbor));
                            pushes = pushes + 1;
                            assert forall|q: int| 0 <= q < k implies workspace.tried(grid, current.position as int, #[trigger] neighbors@[q]) by {
                                assert(before.tried(grid, current.position as int, neighbors@[q]));
                            }
                            assert(workspace.seen(neighbor_index as int));
                            assert forall|i: int| 0 <= i < workspace.generation@.len() implies #[trigger] workspace.generation@[i] <= workspace.current_gen by {
                                if i != neighbor_index as int {
                                    assert(before.generation@[i] == workspace.generation@[i]);
                                }
                            }
                            assert forall|i: int| 0 <= i < n && #[trigger] workspace.seen(i) implies workspace.node_ok(grid, start_index as int, iterations as int, i) by {
                                if i == neighbor_index as int {
                                    assert(i != start_index as int);
                                } else {
                                    assert(before.seen(i));
                                    assert(workspace.costs@[i] == before.costs@[i]);
                                    assert(workspace.came_from@[i] == before.came_from@[i]);
                                }
                            }
                            assert forall|j: int| 0 <= j < workspace.open@.len() implies {
                                &&& (#[trigger] workspace.open@[j]).position < n
                                &&& workspace.seen(workspace.open@[j].position as int)
                            } by {
                                if j < before.open@.len() {
                                    assert(workspace.open@[j] == before.open@[j]);
                                }
                            }
                        }
                    }
                },
            }
            proof {
                assert(spec_coordinate(w, current.position as int) == current_coordinate);
                assert(workspace.tried(grid, current.position as int, neighbor));
                assert forall|q: int| 0 <= q < k + 1 implies workspace.tried(grid, current.position as int, #[trigger] neighbors@[q]) by {
                    if q == k {
                        assert(neighbors@[q] == neighbor);
                    }
                }
            }
            k += 1;
        }
        proof {
            reveal(PathfindingWorkspace::expanded);
            assert forall|c: (u32, u32)| #[trigger] neighbor_ok(grid, spec_coordinate(w, current.position as int), c) implies workspace.tried(grid, current.position as int, c) by {
                assert(neighbors@.contains(c));
                let q = choose|q: int| 0 <= q < neighbors@.len() && neighbors@[q] == c;
                assert(workspace.tried(grid, current.position as int, neighbors@[q]));
            }
            assert(workspace.expanded(grid, current.position as int));
            assert(workspace.frontier_ok(grid, goal, goal_index as int, -1));
        }
    }
}

/// `find_path_with_workspace_and_limit` with the default expansion limit.
pub fn find_path_with_workspace(
    workspace: &mut PathfindingWorkspace,
    grid: &Grid,
    start: (u32, u32),
    goal: (u32, u32),
) -> (r: Option<Vec<(u32, u32)>>)
    requires
        grid.wf(),
        old(workspace).wf(),
    ensures
        final(workspace).wf(),
        search_result_ok(grid, start, goal, match r { Some(v) => Some(v@), None => None }),
        final(workspace).spec_expansions() <= DEFAULT_MAX_ITERATIONS,
        r is None && trivial_search_outcome(grid, start, goal) is None && reachable(grid, start, goal)
            ==> final(workspace).spec_expansions() == DEFAULT_MAX_ITERATIONS,
        r is None && trivial_search_outcome(grid, start, goal) is None && reachable(grid, start, goal)
            ==> DEFAULT_MAX_ITERATIONS <= 8 * grid.tiles@.len(),
{
    find_path_with_workspace_and_limit(workspace, grid, start, goal, None)
}

/// A fresh search with an optional expansion limit; it finds a route whenever one
/// exists and the limit is above eight times the number of tiles.
pub fn find_path_with_limit(
    grid: &Grid,
    start: (u32, u32),
    goal: (u32, u32),
    max_iterations: Option<usize>,
) -> (r: Option<Vec<(u32, u32)>>)
    requires
        grid.wf(),
    ensures
        search_result_ok(grid, start, goal, match r { Some(v) => Some(v@), None => None }),
        r is None && trivial_search_outcome(grid, start, goal) is None && reachable(grid, start, goal)
            ==> expansion_limit(max_iterations) <= 8 * grid.tiles@.len(),
{
    let mut workspace = PathfindingWorkspace::new();
    find_path_with_workspace_and_limit(&mut workspace, grid, start, goal, max_iterations)
}

/// A fresh search with the default expansion limit; on grids of fewer than 6,250
/// tiles it finds a route whenever one exists.
pub fn find_path(grid: &Grid, start: (u32, u32), goal: (u32, u32)) -> (r: Option<Vec<(u32, u32)>>)
    requires
        grid.wf(),
    ensures
        search_result_ok(grid, start, goal, match r { Some(v) => Some(v@), None => None }),
        r is None && trivial_search_outcome(grid, start, goal) is None && reachable(grid, start, goal)
            ==> DEFAULT_MAX_ITERATIONS <= 8 * grid.tiles@.len(),
{
    find_path_with_limit(grid, start, goal, None)
}

/// Bresenham's walk from `(xs, ys)` toward a target `dx` columns and `ddy` rows away,
/// after `a` column steps and `b` row steps: true when every visited point lies inside
/// the `w` by `h` grid and can be entered, up to and including the target.
pub open spec fn los_walk(
    grid: &Grid,
    xs: int,
    ys: int,
    sx: int,
    sy: int,
    dx: int,
    ddy: int,
    w: int,
    h: int,
    a: int,
    b: int,
) -> bool
    decreases (dx - a) + (ddy - b),
    when 0 <= a <= dx && 0 <= b <= ddy
{
    let x = if sx > 0 { xs + a } else { xs - a };
    let y = if sy > 0 { ys + b } else { ys - b };
    if x < 0 || y < 0 || x >= w || y >= h {
        false
    } else if !grid.walkable(x, y) {
        false
    } else if a == dx && b == ddy {
        true
    } else {
        let err = dx * (b + 1) - ddy * (a + 1);
        let na = if 2 * err >= -ddy { a + 1 } else { a };
        let nb = if 2 * err <= dx { b + 1 } else { b };
        proof {
            lemma_bresenham_progress(dx, ddy, a, b);
        }
        los_walk(grid, xs, ys, sx, sy, dx, ddy, w, h, na, nb)
    }
}

/// A Bresenham step never passes the target and always moves closer to it.
pub proof fn lemma_bresenham_progress(dx: int, ddy: int, a: int, b: int)
    requires
        0 <= a <= dx,
        0 <= b <= ddy,
        !(a == dx && b == ddy),
    ensures
        ({
            let err = dx * (b + 1) - ddy * (a + 1);
            let na = if 2 * err >= -ddy { a + 1 } else { a };
            let nb = if 2 * err <= dx { b + 1 } else { b };
            &&& 0 <= na <= dx
            &&& 0 <= nb <= ddy
            &&& na + nb > a + b
        }),
{
    let err = dx * (b + 1) - ddy * (a + 1);
    if a == dx {
        assert(dx * (b + 1) - ddy * (dx + 1) <= -ddy) by (nonlinear_arith)
            requires b + 1 <= ddy, dx >= 0;
    } else if b == ddy {
        assert(dx * (ddy + 1) - ddy * (a + 1) >= dx) by (nonlinear_arith)
            requires a + 1 <= dx, ddy >= 0;
    }
}

pub open spec fn signed_coordinate(v: u32) -> int {
    (v as i32) as int
}

/// Whether Bresenham's line from `from` to `to` stays on tiles that can be entered.
pub open spec fn spec_has_line_of_sight(grid: &Grid, from: (u32, u32), to: (u32, u32)) -> bool {
    let xs = signed_coordinate(from.0);
    let ys = signed_coordinate(from.1);
    let x1 = signed_coordinate(to.0);
    let y1 = signed_coordinate(to.1);
    los_walk(
        grid,
        xs,
        ys,
        if xs < x1 { 1 } else { -1 },
        if ys < y1 { 1 } else { -1 },
        abs_diff(xs, x1),
        abs_diff(ys, y1),
        signed_coordinate(grid.width),
        signed_coordinate(grid.height),
        0,
        0,
    )
}

/// Walks Bresenham's line from `from` to `to`, failing on the first tile outside the
/// grid or impassable.
pub fn has_line_of_sight(grid: &Grid, from: (u32, u32), to: (u32, u32)) -> (r: bool)
    ensures
        r == spec_has_line_of_sight(grid, from, to),
{
    let xs = (from.0 as i32) as i64;
    let ys = (from.1 as i32) as i64;
    let x1 = (to.0 as i32) as i64;
    let y1 = (to.1 as i32) as i64;
    let w = (grid.width as i32) as i64;
    let h = (grid.height as i32) as i64;
    let dx: i64 = if x1 >= xs { x1 - xs } else { xs - x1 };
    let ddy: i64 = if y1 >= ys { y1 - ys } else { ys - y1 };
    let dy: i64 = -ddy;
    let sx: i64 = if xs < x1 { 1 } else { -1 };
    let sy: i64 = if ys < y1 { 1 } else { -1 };
    let mut err: i64 = dx + dy;
    let mut x0 = xs;
    let mut y0 = ys;
    let ghost mut a: int = 0;
    let ghost mut b: int = 0;
    let ghost target = spec_has_line_of_sight(grid, from, to);
    assert(dx * (0int + 1) - ddy * (0int + 1) == dx - ddy) by (nonlinear_arith);
    loop
        invariant
            0 <= dx <= 0xffff_ffff,
            0 <= ddy <= 0xffff_ffff,
            dy == -ddy,
            0 <= a <= dx,
            0 <= b <= ddy,
            sx == (if xs < x1 { 1int } else { -1 }),
            sy == (if ys < y1 { 1int } else { -1 }),
            dx == abs_diff(xs as int, x1 as int),
            ddy == abs_diff(ys as int, y1 as int),
            x0 == (if sx > 0 { xs + a } else { xs - a }),
            y0 == (if sy > 0 { ys + b } else { ys - b }),
            err == dx * (b + 1) - ddy * (a + 1),
            -2 * (dx + ddy) <= err <= 2 * (dx + ddy),
            xs == signed_coordinate(from.0),
            ys == signed_coordinate(from.1),
            x1 == signed_coordinate(to.0),
            x1 == (if sx > 0 { xs + dx } else { xs - dx }),
            y1 == (if sy > 0 { ys + ddy } else { ys - ddy }),
            y1 == signed_coordinate(to.1),
            w == signed_coordinate(grid.width),
            h == signed_coordinate(grid.height),
            -0x8000_0000 <= xs < 0x8000_0000,
            -0x8000_0000 <= ys < 0x8000_0000,
            target == spec_has_line_of_sight(grid, from, to),
            target == los_walk(grid, xs as int, ys as int, sx as int, sy as int, dx as int, ddy as int, w as int, h as int, a, b),
        decreases (dx - a) + (ddy - b),
    {
        proof {
            reveal_with_fuel(los_walk, 2);
        }
        if x0 < 0 || y0 < 0 || x0 >= w || y0 >= h {
            return false;
        }
        if !grid.is_walkable_at(x0 as u32, y0 as u32) {
            return false;
        }
        if x0 == x1 && y0 == y1 {
            return true;
        }
        proof {
            lemma_bresenham_progress(dx as int, ddy as int, a, b);
        }
        let e2 = 2 * err;
        proof {
            assert(dx * (b + 2) == dx * (b + 1) + dx) by (nonlinear_arith);
            assert(ddy * (a + 2) == ddy * (a + 1) + ddy) by (nonlinear_arith);
        }
        if e2 >= dy {
            err = err + dy;
            x0 = x0 + sx;
            proof { a = a + 1; }
        }
        if e2 <= dx {
            err = err + dx;
            y0 = y0 + sy;
            proof { b = b + 1; }
        }
    }
}

/// Adjacent tiles that can be entered see each other, as does a tile itself.
proof fn lemma_adjacent_line_of_sight(grid: &Grid, from: (u32, u32), to: (u32, u32))
    requires
        grid.walkable(from.0 as int, from.1 as int),
        grid.walkable(to.0 as int, to.1 as int),
        abs_diff(from.0 as int, to.0 as int) <= 1,
        abs_diff(from.1 as int, to.1 as int) <= 1,
        grid.width <= i32::MAX,
        grid.height <= i32::MAX,
    ensures
        spec_has_line_of_sight(grid, from, to),
{
    assert(from.0 < grid.width && to.0 < grid.width && from.1 < grid.height && to.1 < grid.height);
    assert(signed_coordinate(from.0) == from.0 as int);
    assert(signed_coordinate(from.1) == from.1 as int);
    assert(signed_coordinate(to.0) == to.0 as int);
    assert(signed_coordinate(to.1) == to.1 as int);
    assert(signed_coordinate(grid.width) == grid.width as int);
    assert(signed_coordinate(grid.height) == grid.height as int);
    reveal_with_fuel(los_walk, 3);
}

/// Appending a point keeps every kept waypoint among the input's points.
proof fn lemma_push_members(path: Seq<(u32, u32)>, s: Seq<(u32, u32)>, v: (u32, u32))
    requires
        forall|k: int| 0 <= k < s.len() ==> path.contains(#[trigger] s[k]),
        path.contains(v),
    ensures
        forall|k: int| 0 <= k < s.push(v).len() ==> path.contains(#[trigger] s.push(v)[k]),
{
    assert forall|k: int| 0 <= k < s.push(v).len() implies path.contains(#[trigger] s.push(v)[k]) by {
        if k < s.len() {
            assert(s.push(v)[k] == s[k]);
        }
    }
}

/// Appending a point the last waypoint can see keeps every leg clear.
proof fn lemma_push_sight(grid: &Grid, s: Seq<(u32, u32)>, v: (u32, u32))
    requires
        s.len() >= 1,
        forall|k: int| 0 <= k < s.len() - 1 ==> spec_has_line_of_sight(grid, #[trigger] s[k], s[k + 1]),
        spec_has_line_of_sight(grid, s.last(), v),
    ensures
        forall|k: int| 0 <= k < s.push(v).len() - 1 ==> spec_has_line_of_sight(grid, #[trigger] s.push(v)[k], s.push(v)[k + 1]),
{
    assert forall|k: int| 0 <= k < s.push(v).len() - 1 implies spec_has_line_of_sight(grid, #[trigger] s.push(v)[k], s.push(v)[k + 1]) by {
        if k < s.len() - 1 {
            assert(s.push(v)[k] == s[k]);
            assert(s.push(v)[k + 1] == s[k + 1]);
        } else {
            assert(s.push(v)[k] == s.last());
        }
    }
}

/// Smoothing after looking at the waypoints before `i`: the kept waypoints and the
/// anchor, the last kept position from which the view is judged.
pub struct SmoothState {
    pub kept: Seq<(u32, u32)>,
    pub anchor: int,
}

/// The greedy pass over the waypoints before `i`: when the anchor cannot see waypoint
/// `j`, the waypoint before it is kept (unless already last) and becomes the anchor.
pub open spec fn smooth_state(grid: &Grid, path: Seq<(u32, u32)>, i: int) -> SmoothState
    decreases i,
{
    if i <= 1 {
        SmoothState { kept: seq![path[0]], anchor: 0 }
    } else {
        let s = smooth_state(grid, path, i - 1);
        let j = i - 1;
        if !spec_has_line_of_sight(grid, path[s.anchor], path[j]) {
            let waypoint = path[j - 1];
            SmoothState {
                kept: if s.kept.last() != waypoint { s.kept.push(waypoint) } else { s.kept },
                anchor: j - 1,
            }
        } else {
            s
        }
    }
}

/// The smoothed path: short paths unchanged, otherwise the greedy pass's waypoints and
/// the last tile.
pub open spec fn spec_smoothed(grid: &Grid, path: Seq<(u32, u32)>) -> Seq<(u32, u32)> {
    if path.len() <= 2 {
        path
    } else {
        smooth_state(grid, path, path.len() as int).kept.push(path.last())
    }
}

/// `sub` lists waypoints of `path` in the order of the path, none twice.
pub open spec fn ordered_subsequence(sub: Seq<(u32, u32)>, path: Seq<(u32, u32)>) -> bool {
    exists|idx: Seq<int>|
        idx.len() == sub.len() && (forall|k: int| 0 <= k < idx.len() ==> 0 <= #[trigger] idx[k] < path.len() && sub[k]
            == path[idx[k]]) && (forall|k: int, l: int| 0 <= k < l < idx.len() ==> idx[k] < idx[l])
}

/// Drops every waypoint that the previous kept waypoint can see past.
#[verifier::spinoff_prover]
#[verifier::rlimit(30)]
pub fn smooth_path(grid: &Grid, path: Vec<(u32, u32)>) -> (r: Vec<(u32, u32)>)
    ensures
        r@ == spec_smoothed(grid, path@),
        ordered_subsequence(r@, path@),
        path@.len() <= 2 ==> r@ == path@,
        path@.len() > 2 ==> {
            &&& r@.len() >= 2
            &&& r@.len() <= path@.len()
            &&& r@[0] == path@[0]
            &&& r@.last() == path@.last()
            &&& forall|k: int| 0 <= k < r@.len() ==> path@.contains(#[trigger] r@[k])
            &&& (valid_route(grid, path@) && grid.width <= i32::MAX && grid.height <= i32::MAX)
                ==> forall|k: int| 0 <= k < r@.len() - 1 ==> spec_has_line_of_sight(grid, #[trigger] r@[k], r@[k + 1])
        },
{
    if path.len() <= 2 {
        proof {
            let ident = Seq::new(path@.len(), |k: int| k);
            assert(ident.len() == path@.len() && (forall|k: int| 0 <= k < ident.len() ==> 0 <= #[trigger] ident[k] < path@.len()
                && path@[k] == path@[ident[k]]) && (forall|k: int, l: int| 0 <= k < l < ident.len() ==> ident[k] < ident[l]));
        }
        return path;
    }
    let ghost good = valid_route(grid, path@) && grid.width <= i32::MAX && grid.height <= i32::MAX;
    let mut smoothed: Vec<(u32, u32)> = Vec::new();
    smoothed.push(path[0]);
    let mut anchor: usize = 0;
    let mut i: usize = 1;
    let ghost mut idx: Seq<int> = seq![0int];
    proof {
        if good {
            lemma_adjacent_line_of_sight(grid, path@[0], path@[0]);
        }
        assert(smoothed@ =~= seq![path@[0]]);
    }
    while i < path.len()
        invariant
            smoothed@ == smooth_state(grid, path@, i as int).kept,
            anchor == smooth_state(grid, path@, i as int).anchor,
            idx.len() == smoothed@.len(),
            forall|k: int| 0 <= k < idx.len() ==> 0 <= #[trigger] idx[k] <= anchor && smoothed@[k] == path@[idx[k]],
            forall|k: int, l: int| 0 <= k < l < idx.len() ==> idx[k] < idx[l],
            path@.len() > 2,
            1 <= i <= path@.len(),
            anchor < i,
            anchor <= path@.len() - 2,
            1 <= smoothed@.len() <= anchor + 1,
            smoothed@[0] == path@[0],
            smoothed@.last() == path@[anchor as int],
            forall|k: int| 0 <= k < smoothed@.len() ==> path@.contains(#[trigger] smoothed@[k]),
            good == (valid_route(grid, path@) && grid.width <= i32::MAX && grid.height <= i32::MAX),
            good ==> spec_has_line_of_sight(grid, path@[anchor as int], path@[i - 1]),
            good ==> forall|k: int| 0 <= k < smoothed@.len() - 1 ==> spec_has_line_of_sight(grid, #[trigger] smoothed@[k], smoothed@[k + 1]),
        decreases path@.len() - i,
    {
        if !has_line_of_sight(grid, path[anchor], path[i]) {
            let waypoint = path[i - 1];
            let last = smoothed[smoothed.len() - 1];
            let ghost before = smoothed@;
            if last.0 != waypoint.0 || last.1 != waypoint.1 {
                smoothed.push(waypoint);
                proof {
                    let t = idx.len() - 1;
                    if idx[t] == i - 1 {
                        assert(last == path@[i - 1]);
                    }
                    idx = idx.push(i - 1);
                    assert(path@.contains(path@[i - 1]));
                    lemma_push_members(path@, before, waypoint);
                    if good {
                        lemma_push_sight(grid, before, waypoint);
                    }
                }
            }
            anchor = i - 1;
            proof {
                if good {
                    assert(valid_step(grid, path@[i - 1], path@[i as int]));
                    lemma_adjacent_line_of_sight(grid, path@[i - 1], path@[i as int]);
                }
            }
        }
        i += 1;
    }
    let ghost before = smoothed@;
    let last_point = path[path.len() - 1];
    smoothed.push(last_point);
    proof {
        idx = idx.push(path@.len() - 1);
        assert(smoothed@ =~= spec_smoothed(grid, path@));
        assert(idx.len() == smoothed@.len() && (forall|k: int| 0 <= k < idx.len() ==> 0 <= #[trigger] idx[k] < path@.len()
            && smoothed@[k] == path@[idx[k]]) && (forall|k: int, l: int| 0 <= k < l < idx.len() ==> idx[k] < idx[l])) by {
            assert forall|k: int| 0 <= k < idx.len() implies 0 <= #[trigger] idx[k] < path@.len() && smoothed@[k] == path@[idx[k]] by {
                if k < idx.len() - 1 {
                    assert(smoothed@[k] == before[k]);
                }
            }
        }
        assert(path@.contains(path@[path@.len() - 1]));
        lemma_push_members(path@, before, last_point);
        if good {
            lemma_push_sight(grid, before, last_point);
        }
    }
    smoothed
}

} // verus!
