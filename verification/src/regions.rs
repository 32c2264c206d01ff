//! Splits the grid into maximal 4-connected regions of land and of water.
use vstd::prelude::*;
use std::collections::VecDeque;
use crate::world::{
    lemma_coordinate_of_index, lemma_index_in_grid, spec_index, spec_is_water, Grid, Region,
    RegionKind, Tile, NO_REGION,
};

verus! {

pub open spec fn spec_kind_of(tile: Tile) -> RegionKind {
    if spec_is_water(tile.terrain) { RegionKind::Water } else { RegionKind::Land }
}

pub open spec fn in_box(w: int, h: int, p: (int, int)) -> bool {
    0 <= p.0 < w && 0 <= p.1 < h
}

/// Kind of the tile at `p` in a `w`-wide row-major tile sequence.
pub open spec fn kind_at(w: int, tiles: Seq<Tile>, p: (int, int)) -> RegionKind {
    spec_kind_of(tiles[spec_index(w, p.0, p.1)])
}

/// `p` and `q` share a side and are of the same kind.
pub open spec fn linked(w: int, h: int, tiles: Seq<Tile>, p: (int, int), q: (int, int)) -> bool {
    &&& in_box(w, h, p)
    &&& in_box(w, h, q)
    &&& ((p.0 - q.0 == 1 || q.0 - p.0 == 1) && p.1 == q.1 || (p.1 - q.1 == 1 || q.1 - p.1 == 1)
        && p.0 == q.0)
    &&& kind_at(w, tiles, p) == kind_at(w, tiles, q)
}

/// A walk through side-sharing tiles of one kind.
pub open spec fn is_walk(w: int, h: int, tiles: Seq<Tile>, s: Seq<(int, int)>) -> bool {
    &&& s.len() >= 1
    &&& in_box(w, h, s[0])
    &&& forall|i: int| 0 <= i < s.len() - 1 ==> linked(w, h, tiles, #[trigger] s[i], s[i + 1])
}

/// Some walk leads from `p` to `q`.
pub open spec fn connected(w: int, h: int, tiles: Seq<Tile>, p: (int, int), q: (int, int)) -> bool {
    exists|s: Seq<(int, int)>| #[trigger] is_walk(w, h, tiles, s) && s[0] == p && s.last() == q
}

/// Region id that `ids` gives the tile at `p`.
pub open spec fn label_at(w: int, ids: Seq<u32>, p: (int, int)) -> u32 {
    ids[spec_index(w, p.0, p.1)]
}

/// Whether the tile at `p` lies on the edge of the `w` by `h` grid.
pub open spec fn on_border(w: int, h: int, p: (int, int)) -> bool {
    p.0 == 0 || p.1 == 0 || p.0 == w - 1 || p.1 == h - 1
}

/// What the tiles labelled `c` among the first `n` in row-major order span: their
/// number, their least and greatest column and row, and whether one lies on the edge.
/// With no such tile the bounds stay at `u32::MAX` and zero.
pub open spec fn span(w: int, h: int, ids: Seq<u32>, c: u32, n: int) -> (int, int, int, int, int, bool)
    decreases n,
{
    if n <= 0 {
        (0, u32::MAX as int, u32::MAX as int, 0, 0, false)
    } else {
        let e = span(w, h, ids, c, n - 1);
        let p = ((n - 1) % w, (n - 1) / w);
        if ids[n - 1] == c {
            (
                e.0 + 1,
                if p.0 < e.1 { p.0 } else { e.1 },
                if p.1 < e.2 { p.1 } else { e.2 },
                if p.0 > e.3 { p.0 } else { e.3 },
                if p.1 > e.4 { p.1 } else { e.4 },
                e.5 || on_border(w, h, p),
            )
        } else {
            e
        }
    }
}

/// The region record agrees with a span.
pub open spec fn spans(region: Region, e: (int, int, int, int, int, bool)) -> bool {
    &&& region.tile_count == e.0
    &&& region.min_x == e.1
    &&& region.min_y == e.2
    &&& region.max_x == e.3
    &&& region.max_y == e.4
    &&& region.touches_border == e.5
}

/// A span counts no more tiles than it looks at, every tile labelled `c` lies within
/// its bounds, and it touches the edge exactly when one of those tiles does.
pub proof fn lemma_span_bounds(w: int, h: int, ids: Seq<u32>, c: u32, n: int)
    requires
        w > 0,
        0 <= n <= ids.len(),
    ensures
        0 <= span(w, h, ids, c, n).0 <= n,
        forall|i: int|
            0 <= i < n && ids[i] == c ==> {
                let e = span(w, h, ids, c, n);
                &&& e.1 <= i % w <= e.3
                &&& e.2 <= i / w <= e.4
            },
        span(w, h, ids, c, n).5 <==> exists|i: int| 0 <= i < n && ids[i] == c && on_border(w, h, (i % w, i / w)),
        span(w, h, ids, c, n).0 > 0 <==> exists|i: int| 0 <= i < n && ids[i] == c,
    decreases n,
{
    if n > 0 {
        lemma_span_bounds(w, h, ids, c, n - 1);
        let e = span(w, h, ids, c, n);
        assert forall|i: int| 0 <= i < n && ids[i] == c implies e.1 <= i % w <= e.3 && e.2 <= i / w <= e.4 by {
            if i < n - 1 {
                assert(ids[i] == c);
            }
        }
        if span(w, h, ids, c, n - 1).5 {
            let i = choose|i: int| 0 <= i < n - 1 && ids[i] == c && on_border(w, h, (i % w, i / w));
            assert(0 <= i < n && ids[i] == c && on_border(w, h, (i % w, i / w)));
        }
        if span(w, h, ids, c, n - 1).0 > 0 {
            let i = choose|i: int| 0 <= i < n - 1 && ids[i] == c;
            assert(0 <= i < n && ids[i] == c);
        }
        if ids[n - 1] == c {
            assert(0 <= n - 1 < n && ids[n - 1] == c);
        }
    }
}

proof fn lemma_connected_self(w: int, h: int, tiles: Seq<Tile>, p: (int, int))
    requires
        in_box(w, h, p),
    ensures
        connected(w, h, tiles, p, p),
{
    let s = seq![p];
    assert(is_walk(w, h, tiles, s));
}

proof fn lemma_connected_extend(
    w: int,
    h: int,
    tiles: Seq<Tile>,
    p: (int, int),
    q: (int, int),
    r: (int, int),
)
    requires
        connected(w, h, tiles, p, q),
        linked(w, h, tiles, q, r),
    ensures
        connected(w, h, tiles, p, r),
{
    let s = choose|s: Seq<(int, int)>| #[trigger] is_walk(w, h, tiles, s) && s[0] == p && s.last() == q;
    let t = s.push(r);
    assert forall|i: int| 0 <= i < t.len() - 1 implies linked(w, h, tiles, #[trigger] t[i], t[i + 1]) by {
        if i < s.len() - 1 {
            assert(t[i] == s[i]);
            assert(t[i + 1] == s[i + 1]);
        } else {
            assert(t[i] == q);
        }
    }
    assert(is_walk(w, h, tiles, t));
}

proof fn lemma_connected_symmetric(w: int, h: int, tiles: Seq<Tile>, p: (int, int), q: (int, int))
    requires
        connected(w, h, tiles, p, q),
    ensures
        connected(w, h, tiles, q, p),
{
    let s = choose|s: Seq<(int, int)>| #[trigger] is_walk(w, h, tiles, s) && s[0] == p && s.last() == q;
    let n = s.len();
    let t = Seq::new(n, |i: int| s[n - 1 - i]);
    assert forall|i: int| 0 <= i < t.len() - 1 implies linked(w, h, tiles, #[trigger] t[i], t[i + 1]) by {
        let j = n - 2 - i;
        assert(linked(w, h, tiles, s[j], s[j + 1]));
    }
    if n >= 2 {
        assert(linked(w, h, tiles, s[n - 2], s[n - 1]));
    }
    assert(is_walk(w, h, tiles, t));
}

proof fn lemma_connected_transitive(
    w: int,
    h: int,
    tiles: Seq<Tile>,
    p: (int, int),
    q: (int, int),
    r: (int, int),
)
    requires
        connected(w, h, tiles, p, q),
        connected(w, h, tiles, q, r),
    ensures
        connected(w, h, tiles, p, r),
{
    let s1 = choose|s: Seq<(int, int)>| #[trigger] is_walk(w, h, tiles, s) && s[0] == p && s.last() == q;
    let s2 = choose|s: Seq<(int, int)>| #[trigger] is_walk(w, h, tiles, s) && s[0] == q && s.last() == r;
    let t = s1 + s2.subrange(1, s2.len() as int);
    assert forall|i: int| 0 <= i < t.len() - 1 implies linked(w, h, tiles, #[trigger] t[i], t[i + 1]) by {
        if i < s1.len() - 1 {
            assert(t[i] == s1[i]);
            assert(t[i + 1] == s1[i + 1]);
        } else if i == s1.len() - 1 {
            assert(t[i] == s2[0]);
            assert(t[i + 1] == s2[1]);
            assert(linked(w, h, tiles, s2[0], s2[1]));
        } else {
            let j = i - s1.len() + 1;
            assert(t[i] == s2[j]);
            assert(t[i + 1] == s2[j + 1]);
            assert(linked(w, h, tiles, s2[j], s2[j + 1]));
        }
    }
    assert(t[0] == s1[0]);
    if s2.len() == 1 {
        assert(t.last() == s1.last());
    } else {
        assert(t.last() == s2.last());
    }
    assert(is_walk(w, h, tiles, t));
}

/// Labels that agree across every link agree along every walk.
proof fn lemma_walk_keeps_label(w: int, h: int, tiles: Seq<Tile>, ids: Seq<u32>, s: Seq<(int, int)>)
    requires
        is_walk(w, h, tiles, s),
        forall|a: (int, int), b: (int, int)| #[trigger] linked(w, h, tiles, a, b) ==> label_at(w, ids, a)
            == label_at(w, ids, b),
    ensures
        label_at(w, ids, s[0]) == label_at(w, ids, s.last()),
    decreases s.len(),
{
    if s.len() > 1 {
        let t = s.drop_last();
        assert forall|i: int| 0 <= i < t.len() - 1 implies linked(w, h, tiles, #[trigger] t[i], t[i + 1]) by {
            assert(t[i] == s[i]);
            assert(t[i + 1] == s[i + 1]);
        }
        lemma_walk_keeps_label(w, h, tiles, ids, t);
        assert(linked(w, h, tiles, s[s.len() - 2], s[s.len() - 1]));
    }
}

/// The in-bounds tiles that share a side with `(x, y)`: left, right, up, down.
fn neighbors_4(x: u32, y: u32, w: u32, h: u32) -> (r: Vec<(u32, u32)>)
    requires
        x < w,
        y < h,
    ensures
        forall|q: (u32, u32)| r@.contains(q) <==> {
            &&& in_box(w as int, h as int, (q.0 as int, q.1 as int))
            &&& ((x - q.0 == 1 || q.0 - x == 1) && y == q.1 || (y - q.1 == 1 || q.1 - y == 1)
                && x == q.0)
        },
{
    let mut out: Vec<(u32, u32)> = Vec::new();
    let ghost i0 = out@.len() as int;
    if x > 0 {
        out.push((x - 1, y));
    }
    let ghost i1 = out@.len() as int;
    if x + 1 < w {
        out.push((x + 1, y));
    }
    let ghost i2 = out@.len() as int;
    if y > 0 {
        out.push((x, y - 1));
    }
    let ghost i3 = out@.len() as int;
    if y + 1 < h {
        out.push((x, y + 1));
    }
    proof {
        assert forall|q: (u32, u32)| {
            &&& in_box(w as int, h as int, (q.0 as int, q.1 as int))
            &&& ((x - q.0 == 1 || q.0 - x == 1) && y == q.1 || (y - q.1 == 1 || q.1 - y == 1)
                && x == q.0)
        } implies out@.contains(q) by {
            if x - q.0 == 1 {
                assert(out@[i0] == q);
            } else if q.0 - x == 1 {
                assert(out@[i1] == q);
            } else if y - q.1 == 1 {
                assert(out@[i2] == q);
            } else {
                assert(out@[i3] == q);
            }
        }
    }
    out
}

/// Tiles inside the box have distinct indices inside the grid.
proof fn lemma_box_indices(w: int, h: int)
    ensures
        forall|p: (int, int)| #[trigger] in_box(w, h, p) ==> 0 <= spec_index(w, p.0, p.1) < w * h,
        forall|p: (int, int), q: (int, int)| in_box(w, h, p) && in_box(w, h, q) && #[trigger] spec_index(w, p.0, p.1)
            == #[trigger] spec_index(w, q.0, q.1) ==> p == q,
{
    assert forall|p: (int, int)| #[trigger] in_box(w, h, p) implies 0 <= spec_index(w, p.0, p.1) < w * h by {
        lemma_index_in_grid(w, h, p.0, p.1);
    }
    assert forall|p: (int, int), q: (int, int)| in_box(w, h, p) && in_box(w, h, q) && #[trigger] spec_index(w, p.0, p.1)
        == #[trigger] spec_index(w, q.0, q.1) implies p == q by {
        lemma_index_in_grid(w, h, p.0, p.1);
        lemma_index_in_grid(w, h, q.0, q.1);
    }
}

/// Setting the entry of `p0` changes the label of `p0` alone.
proof fn lemma_label_update(w: int, h: int, before: Seq<u32>, after: Seq<u32>, p0: (int, int), v: u32)
    requires
        in_box(w, h, p0),
        before.len() == w * h,
        after == before.update(spec_index(w, p0.0, p0.1), v),
    ensures
        forall|p: (int, int)| #[trigger] in_box(w, h, p) ==> label_at(w, after, p) == if p == p0 { v } else { label_at(w, before, p) },
{
    lemma_box_indices(w, h);
}

/// Every index of a non-empty grid is the index of a tile in the box.
proof fn lemma_index_coordinates(w: int, h: int)
    requires
        w > 0,
    ensures
        forall|i: int| 0 <= i < w * h ==> in_box(w, h, (#[trigger] (i % w), i / w)) && spec_index(w, i % w, i / w) == i,
{
    assert forall|i: int| 0 <= i < w * h implies in_box(w, h, (#[trigger] (i % w), i / w)) && spec_index(w, i % w, i / w) == i by {
        lemma_coordinate_of_index(w, h, i);
    }
}

/// Every tile linked to `p` carries label `c`.
pub open spec fn closed_at(w: int, h: int, tiles: Seq<Tile>, ids: Seq<u32>, p: (int, int), c: u32) -> bool {
    forall|q: (int, int)| #[trigger] linked(w, h, tiles, p, q) ==> label_at(w, ids, q) == c
}

/// A region record before its tiles are counted.
pub open spec fn fresh(region: Region) -> bool {
    &&& region.tile_count == 0
    &&& region.min_x == u32::MAX
    &&& region.min_y == u32::MAX
    &&& region.max_x == 0
    &&& region.max_y == 0
    &&& !region.touches_border
}

/// Labels below `c` belong to finished regions: their recorded kind matches, they are
/// reachable from their seed, and nothing linked to them carries another label.
spec fn finished_ok(
    w: int,
    h: int,
    tiles: Seq<Tile>,
    ids: Seq<u32>,
    regions: Seq<Region>,
    seeds: Seq<(int, int)>,
    c: u32,
) -> bool {
    &&& regions.len() == c
    &&& forall|k: int| 0 <= k < c ==> fresh(#[trigger] regions[k])
    &&& seeds.len() >= c
    &&& forall|k: int| 0 <= k < c ==> in_box(w, h, #[trigger] seeds[k])
    &&& forall|p: (int, int)| in_box(w, h, p) && #[trigger] label_at(w, ids, p) < c ==> {
        &&& regions[label_at(w, ids, p) as int].kind == kind_at(w, tiles, p)
        &&& connected(w, h, tiles, seeds[label_at(w, ids, p) as int], p)
        &&& closed_at(w, h, tiles, ids, p, label_at(w, ids, p))
    }
}

/// No label above `c`, and every tile before scan position `scan` is labelled.
spec fn scan_ok(w: int, h: int, ids: Seq<u32>, c: u32, scan: int) -> bool {
    &&& ids.len() == w * h
    &&& forall|p: (int, int)| in_box(w, h, p) ==> #[trigger] label_at(w, ids, p) == NO_REGION
        || label_at(w, ids, p) <= c
    &&& forall|p: (int, int)| in_box(w, h, p) && spec_index(w, p.0, p.1) < scan ==> #[trigger] label_at(
        w,
        ids,
        p,
    ) != NO_REGION
}

/// `p` as a queue entry.
pub open spec fn as_entry(p: (int, int)) -> (u32, u32) {
    (p.0 as u32, p.1 as u32)
}

/// The region `c` being flooded from `seed`: its tiles have kind `kind`, are reachable
/// from the seed, and are either waiting in the queue, being expanded, or closed.
spec fn current_ok(
    w: int,
    h: int,
    tiles: Seq<Tile>,
    ids: Seq<u32>,
    seed: (int, int),
    c: u32,
    kind: RegionKind,
    queue: Seq<(u32, u32)>,
    expanding: Option<(int, int)>,
) -> bool {
    &&& forall|j: int| 0 <= j < queue.len() ==> in_box(w, h, (#[trigger] queue[j].0 as int, queue[j].1 as int))
        && label_at(w, ids, (queue[j].0 as int, queue[j].1 as int)) == c
    &&& forall|p: (int, int)| in_box(w, h, p) && #[trigger] label_at(w, ids, p) == c ==> {
        &&& kind_at(w, tiles, p) == kind
        &&& connected(w, h, tiles, seed, p)
        &&& (queue.contains(as_entry(p)) || expanding == Some(p) || closed_at(w, h, tiles, ids, p, c))
    }
}

#[verifier::rlimit(80)]
/// Claiming an unlabelled tile for the region being flooded keeps the finished
/// regions intact.
proof fn lemma_claim_keeps_finished(
    w: int,
    h: int,
    tiles: Seq<Tile>,
    before: Seq<u32>,
    after: Seq<u32>,
    regions: Seq<Region>,
    seeds: Seq<(int, int)>,
    c: u32,
    nq: (int, int),
)
    requires
        finished_ok(w, h, tiles, before, regions, seeds, c),
        in_box(w, h, nq),
        before.len() == w * h,
        label_at(w, before, nq) == NO_REGION,
        after == before.update(spec_index(w, nq.0, nq.1), c),
    ensures
        finished_ok(w, h, tiles, after, regions, seeds, c),
{
    lemma_label_update(w, h, before, after, nq, c);
    assert forall|p: (int, int)| in_box(w, h, p) && #[trigger] label_at(w, after, p) < c implies {
        &&& regions[label_at(w, after, p) as int].kind == kind_at(w, tiles, p)
        &&& connected(w, h, tiles, seeds[label_at(w, after, p) as int], p)
        &&& closed_at(w, h, tiles, after, p, label_at(w, after, p))
    } by {
        assert(label_at(w, before, p) == label_at(w, after, p));
        assert(closed_at(w, h, tiles, before, p, label_at(w, before, p)));
        assert forall|q: (int, int)| #[trigger] linked(w, h, tiles, p, q) implies label_at(w, after, q) == label_at(w, after, p) by {
            assert(label_at(w, before, q) == label_at(w, before, p));
        }
    }
}

/// Each finished region's seed carries its label, and every tile before the seed in
/// row-major order carries a smaller one.
spec fn seeds_first(w: int, h: int, ids: Seq<u32>, seeds: Seq<(int, int)>, c: u32) -> bool {
    &&& forall|k: int| 0 <= k < c ==> label_at(w, ids, #[trigger] seeds[k]) == k
    &&& forall|k: int, p: (int, int)|
        #![trigger seeds[k], label_at(w, ids, p)]
        0 <= k < c && in_box(w, h, p) && spec_index(w, p.0, p.1) < spec_index(w, seeds[k].0, seeds[k].1) ==> label_at(
            w,
            ids,
            p,
        ) < k
}

/// Every tile before scan position `scan` carries a label below `c`.
spec fn before_labelled(w: int, h: int, ids: Seq<u32>, c: u32, scan: int) -> bool {
    forall|p: (int, int)| in_box(w, h, p) && spec_index(w, p.0, p.1) < scan ==> #[trigger] label_at(w, ids, p) < c
}

/// Claiming an unlabelled tile keeps the seeds first and the tiles before the scan
/// position labelled.
proof fn lemma_claim_keeps_seeds(
    w: int,
    h: int,
    before: Seq<u32>,
    after: Seq<u32>,
    seeds: Seq<(int, int)>,
    c: u32,
    scan: int,
    nq: (int, int),
)
    requires
        seeds_first(w, h, before, seeds, c),
        before_labelled(w, h, before, c, scan),
        forall|k: int| 0 <= k < c ==> in_box(w, h, #[trigger] seeds[k]),
        c < NO_REGION,
        in_box(w, h, nq),
        before.len() == w * h,
        label_at(w, before, nq) == NO_REGION,
        after == before.update(spec_index(w, nq.0, nq.1), c),
    ensures
        seeds_first(w, h, after, seeds, c),
        before_labelled(w, h, after, c, scan),
{
    lemma_label_update(w, h, before, after, nq, c);
    assert forall|k: int| 0 <= k < c implies label_at(w, after, #[trigger] seeds[k]) == k by {
        assert(in_box(w, h, seeds[k]));
        assert(label_at(w, before, seeds[k]) == k);
    }
    assert forall|k: int, p: (int, int)|
        #![trigger seeds[k], label_at(w, after, p)]
        0 <= k < c && in_box(w, h, p) && spec_index(w, p.0, p.1) < spec_index(w, seeds[k].0, seeds[k].1) implies label_at(
            w,
            after,
            p,
        ) < k by {
        assert(label_at(w, before, p) < k);
    }
    assert forall|p: (int, int)| in_box(w, h, p) && spec_index(w, p.0, p.1) < scan implies #[trigger] label_at(w, after, p) < c by {
        assert(label_at(w, before, p) < c);
    }
}

/// Claiming a tile keeps the scan bookkeeping.
proof fn lemma_claim_keeps_scan(w: int, h: int, before: Seq<u32>, after: Seq<u32>, c: u32, scan: int, nq: (int, int))
    requires
        scan_ok(w, h, before, c, scan),
        c < NO_REGION,
        in_box(w, h, nq),
        after == before.update(spec_index(w, nq.0, nq.1), c),
    ensures
        scan_ok(w, h, after, c, scan),
{
    lemma_label_update(w, h, before, after, nq, c);
    lemma_box_indices(w, h);
    assert(after.len() == before.len());
    assert forall|p: (int, int)| in_box(w, h, p) implies #[trigger] label_at(w, after, p) == NO_REGION
        || label_at(w, after, p) <= c by {
        assert(in_box(w, h, p));
    }
    assert forall|p: (int, int)| in_box(w, h, p) && spec_index(w, p.0, p.1) < scan implies #[trigger] label_at(
        w, after, p) != NO_REGION by {
        assert(in_box(w, h, p));
    }
}

/// Claiming a tile linked to the one being expanded, and queueing it, keeps the
/// flood's bookkeeping.
proof fn lemma_claim_keeps_current(
    w: int,
    h: int,
    tiles: Seq<Tile>,
    before: Seq<u32>,
    after: Seq<u32>,
    seed: (int, int),
    c: u32,
    kind: RegionKind,
    queue_before: Seq<(u32, u32)>,
    queue_after: Seq<(u32, u32)>,
    cur: (int, int),
    nq: (int, int),
)
    requires
        current_ok(w, h, tiles, before, seed, c, kind, queue_before, Some(cur)),
        0 <= w <= u32::MAX,
        0 <= h <= u32::MAX,
        in_box(w, h, nq),
        before.len() == w * h,
        label_at(w, before, nq) == NO_REGION,
        c != NO_REGION,
        after == before.update(spec_index(w, nq.0, nq.1), c),
        queue_after == queue_before.push(as_entry(nq)),
        kind_at(w, tiles, nq) == kind,
        connected(w, h, tiles, seed, nq),
    ensures
        current_ok(w, h, tiles, after, seed, c, kind, queue_after, Some(cur)),
{
    lemma_label_update(w, h, before, after, nq, c);
    assert forall|j: int| 0 <= j < queue_after.len() implies in_box(w, h, (#[trigger] queue_after[j].0 as int, queue_after[j].1 as int))
        && label_at(w, after, (queue_after[j].0 as int, queue_after[j].1 as int)) == c by {
        if j < queue_before.len() {
            assert(queue_after[j] == queue_before[j]);
        } else {
            assert(queue_after[j] == as_entry(nq));
            assert((queue_after[j].0 as int, queue_after[j].1 as int) == nq);
        }
    }
    assert forall|p: (int, int)| in_box(w, h, p) && #[trigger] label_at(w, after, p) == c implies {
        &&& kind_at(w, tiles, p) == kind
        &&& connected(w, h, tiles, seed, p)
        &&& (queue_after.contains(as_entry(p)) || Some(cur) == Some(p) || closed_at(w, h, tiles, after, p, c))
    } by {
        if p == nq {
            assert(queue_after[queue_after.len() - 1] == as_entry(p));
        } else {
            assert(label_at(w, before, p) == c);
            if queue_before.contains(as_entry(p)) {
                let j = choose|j: int| 0 <= j < queue_before.len() && queue_before[j] == as_entry(p);
                assert(queue_after[j] == as_entry(p));
            } else if Some(cur) != Some(p) {
                assert(closed_at(w, h, tiles, before, p, c));
                assert forall|q: (int, int)| #[trigger] linked(w, h, tiles, p, q) implies label_at(w, after, q) == c by {
                    assert(label_at(w, before, q) == c);
                }
            }
        }
    }
}

/// Labels every tile with the id of its region and records one `Region` per id, in
/// row-major order of each region's first tile.
pub fn detect_regions(grid: &mut Grid)
    requires
        old(grid).wf(),
    ensures
        final(grid).width == old(grid).width,
        final(grid).height == old(grid).height,
        final(grid).tiles@ == old(grid).tiles@,
        final(grid).resources@ == old(grid).resources@,
        final(grid).renewable_resources@ == old(grid).renewable_resources@,
        final(grid).region_ids@.len() == final(grid).width * final(grid).height,
        forall|p: (int, int)| #[trigger] in_box(final(grid).width as int, final(grid).height as int, p) ==> {
            let id = label_at(final(grid).width as int, final(grid).region_ids@, p);
            &&& id < final(grid).regions@.len()
            &&& final(grid).regions@[id as int].kind == kind_at(final(grid).width as int, final(grid).tiles@, p)
        },
        forall|p: (int, int)|
            #[trigger] in_box(final(grid).width as int, final(grid).height as int, p) && label_at(
                final(grid).width as int,
                final(grid).region_ids@,
                p,
            ) > 0 ==> exists|q: (int, int)|
                in_box(final(grid).width as int, final(grid).height as int, q) && spec_index(
                    final(grid).width as int,
                    q.0,
                    q.1,
                ) < spec_index(final(grid).width as int, p.0, p.1) && label_at(
                    final(grid).width as int,
                    final(grid).region_ids@,
                    q,
                ) + 1 == label_at(final(grid).width as int, final(grid).region_ids@, p),
        forall|c: int|
            0 <= c < final(grid).regions@.len() ==> spans(
                #[trigger] final(grid).regions@[c],
                span(
                    final(grid).width as int,
                    final(grid).height as int,
                    final(grid).region_ids@,
                    c as u32,
                    final(grid).width * final(grid).height,
                ),
            ),
        forall|p: (int, int), q: (int, int)|
            in_box(final(grid).width as int, final(grid).height as int, p) && in_box(
                final(grid).width as int,
                final(grid).height as int,
                q,
            ) ==> (label_at(final(grid).width as int, final(grid).region_ids@, p) == label_at(
                final(grid).width as int,
                final(grid).region_ids@,
                q,
            ) <==> connected(
                final(grid).width as int,
                final(grid).height as int,
                final(grid).tiles@,
                p,
                q,
            )),
{
    let width = grid.width;
    let height = grid.height;
    let ghost w = width as int;
    let ghost h = height as int;
    let ghost tiles = grid.tiles@;
    let total = (width * height) as usize;
    let mut ids: Vec<u32> = Vec::new();
    while ids.len() < total
        invariant
            total == w * h,
            ids@.len() <= total,
            forall|i: int| 0 <= i < ids@.len() ==> #[trigger] ids@[i] == NO_REGION,
        decreases total - ids@.len(),
    {
        ids.push(NO_REGION);
    }
    let mut regions: Vec<Region> = Vec::new();
    let mut next_id: u32 = 0;
    let mut queue: VecDeque<(u32, u32)> = VecDeque::new();
    let ghost mut seeds: Seq<(int, int)> = Seq::empty();
    let mut y: u32 = 0;
    proof {
        lemma_box_indices(w, h);
    }
    while y < height
        invariant
            width == grid.width,
            height == grid.height,
            w == width as int,
            h == height as int,
            tiles == grid.tiles@,
            grid.wf(),
            total == w * h,
            0 <= y <= height,
            next_id <= y * w,
            scan_ok(w, h, ids@, next_id, y * w),
            finished_ok(w, h, tiles, ids@, regions@, seeds, next_id),
            seeds_first(w, h, ids@, seeds, next_id),
            seeds.len() == next_id,
            forall|p: (int, int)| in_box(w, h, p) ==> #[trigger] label_at(w, ids@, p) != next_id,
        decreases height - y,
    {
        let mut x: u32 = 0;
        while x < width
            invariant
                width == grid.width,
                height == grid.height,
                w == width as int,
                h == height as int,
                tiles == grid.tiles@,
                grid.wf(),
                total == w * h,
                0 <= y < height,
                0 <= x <= width,
                next_id <= y * w + x,
                scan_ok(w, h, ids@, next_id, y * w + x),
                finished_ok(w, h, tiles, ids@, regions@, seeds, next_id),
                seeds_first(w, h, ids@, seeds, next_id),
                seeds.len() == next_id,
                forall|p: (int, int)| in_box(w, h, p) ==> #[trigger] label_at(w, ids@, p) != next_id,
            decreases width - x,
        {
            proof {
                lemma_index_in_grid(w, h, x as int, y as int);
                lemma_box_indices(w, h);
            }
            let idx = (y * width + x) as usize;
            if ids[idx] == NO_REGION {
                let kind = if grid.tiles[idx].terrain.is_water() {
                    RegionKind::Water
                } else {
                    RegionKind::Land
                };
                let region = Region {
                    kind,
                    tile_count: 0,
                    min_x: u32::MAX,
                    min_y: u32::MAX,
                    max_x: 0,
                    max_y: 0,
                    touches_border: false,
                };
                let mut flooded: usize = 0;
                let ghost seed: (int, int) = (x as int, y as int);
                proof {
                    seeds = seeds.push(seed);
                    lemma_connected_self(w, h, tiles, seed);
                }
                queue = VecDeque::new();
                queue.push_back((x, y));
                let ghost ids_before = ids@;
                ids.set(idx, next_id);
                let ghost mut members: Set<int> = set![idx as int];
                assert(next_id < u32::MAX);
                proof {
                    lemma_label_update(w, h, ids_before, ids@, seed, next_id);
                    lemma_index_coordinates(w, h);
                    assert forall|i: int| #[trigger] members.contains(i) <==> 0 <= i < total && ids@[i] == next_id by {
                        if 0 <= i < total && ids@[i] == next_id && i != idx {
                            let p = (i % w, i / w);
                            assert(in_box(w, h, p));
                            assert(label_at(w, ids@, p) == ids@[i]);
                        }
                    }
                    assert forall|p: (int, int)| in_box(w, h, p) && spec_index(w, p.0, p.1) < y * w + x + 1 implies #[trigger] label_at(
                        w, ids@, p) != NO_REGION by {
                        if p != seed {
                            assert(label_at(w, ids_before, p) != NO_REGION);
                        }
                    }
                    assert forall|p: (int, int)| in_box(w, h, p) && #[trigger] label_at(w, ids@, p) < next_id implies {
                        &&& regions@[label_at(w, ids@, p) as int].kind == kind_at(w, tiles, p)
                        &&& connected(w, h, tiles, seeds[label_at(w, ids@, p) as int], p)
                        &&& closed_at(w, h, tiles, ids@, p, label_at(w, ids@, p))
                    } by {
                        assert(label_at(w, ids_before, p) == label_at(w, ids@, p));
                        assert(closed_at(w, h, tiles, ids_before, p, label_at(w, ids_before, p)));
                        assert forall|q: (int, int)| #[trigger] linked(w, h, tiles, p, q) implies label_at(w, ids@, q) == label_at(w, ids@, p) by {
                            assert(label_at(w, ids_before, q) == label_at(w, ids_before, p));
                        }
                    }
                    assert forall|p: (int, int)| in_box(w, h, p) && #[trigger] label_at(w, ids@, p) == next_id
                        implies p == seed by {
                        lemma_index_in_grid(w, h, p.0, p.1);
                    }
                    assert(queue@[0] == as_entry(seed));
                }
                while queue.len() > 0
                    invariant
                        width == grid.width,
                        height == grid.height,
                        w == width as int,
                        h == height as int,
                        tiles == grid.tiles@,
                        grid.wf(),
                        total == w * h,
                        0 <= y < height,
                        0 <= x < width,
                        next_id <= y * w + x,
                        seed == (x as int, y as int),
                        next_id < NO_REGION,
                        seeds.len() == next_id + 1,
                        seeds[next_id as int] == seed,
                        kind == kind_at(w, tiles, seed),
                        scan_ok(w, h, ids@, next_id, y * w + x + 1),
                        finished_ok(w, h, tiles, ids@, regions@, seeds, next_id),
                        seeds_first(w, h, ids@, seeds, next_id),
                        before_labelled(w, h, ids@, next_id, y * w + x),
                        label_at(w, ids@, seed) == next_id,
                        in_box(w, h, seed),
                        current_ok(w, h, tiles, ids@, seed, next_id, kind, queue@, None),
                        region == (Region {
                            kind,
                            tile_count: 0,
                            min_x: u32::MAX,
                            min_y: u32::MAX,
                            max_x: 0,
                            max_y: 0,
                            touches_border: false,
                        }),
                        flooded + queue@.len() == members.len(),
                        members.finite(),
                        forall|i: int| #[trigger] members.contains(i) <==> 0 <= i < total && ids@[i] == next_id,
                    decreases total - flooded,
                {
                    proof {
                        vstd::set_lib::lemma_int_range(0, total as int);
                        assert(members.subset_of(vstd::set_lib::set_int_range(0, total as int)));
                        vstd::set_lib::lemma_len_subset(members, vstd::set_lib::set_int_range(0, total as int));
                    }
                    let ghost queue_before = queue@;
                    let (cx, cy) = queue.pop_front().unwrap();
                    let ghost cur: (int, int) = (cx as int, cy as int);
                    proof {
                        assert(queue_before[0] == (cx, cy));
                        assert(in_box(w, h, (queue_before[0].0 as int, queue_before[0].1 as int)));
                        assert(as_entry(cur) == (cx, cy));
                        assert forall|p: (int, int)| in_box(w, h, p) && #[trigger] label_at(w, ids@, p) == next_id implies
                            (queue@.contains(as_entry(p)) || Some(cur) == Some(p) || closed_at(w, h, tiles, ids@, p, next_id)) by {
                            if queue_before.contains(as_entry(p)) && !closed_at(w, h, tiles, ids@, p, next_id) {
                                let j = choose|j: int| 0 <= j < queue_before.len() && queue_before[j] == as_entry(p);
                                if j == 0 {
                                    assert(as_entry(p) == as_entry(cur));
                                    assert(p == cur);
                                } else {
                                    assert(queue@[j - 1] == queue_before[j]);
                                }
                            }
                        }
                        assert forall|j: int| 0 <= j < queue@.len() implies in_box(w, h, (#[trigger] queue@[j].0 as int, queue@[j].1 as int))
                            && label_at(w, ids@, (queue@[j].0 as int, queue@[j].1 as int)) == next_id by {
                            assert(queue@[j] == queue_before[j + 1]);
                        }
                    }
                    flooded = flooded + 1;
                    let neighbors = neighbors_4(cx, cy, width, height);
                    let mut k: usize = 0;
                    while k < neighbors.len()
                        invariant
                            width == grid.width,
                            height == grid.height,
                            w == width as int,
                            h == height as int,
                            tiles == grid.tiles@,
                            grid.wf(),
                            total == w * h,
                            seeds.len() == next_id + 1,
                            seeds[next_id as int] == seed,
                            kind == kind_at(w, tiles, seed),
                            in_box(w, h, cur),
                            next_id < NO_REGION,
                            cur == (cx as int, cy as int),
                            label_at(w, ids@, cur) == next_id,
                            kind_at(w, tiles, cur) == kind,
                            connected(w, h, tiles, seed, cur),
                            scan_ok(w, h, ids@, next_id, y * w + x + 1),
                            finished_ok(w, h, tiles, ids@, regions@, seeds, next_id),
                            seeds_first(w, h, ids@, seeds, next_id),
                            before_labelled(w, h, ids@, next_id, y * w + x),
                            label_at(w, ids@, seed) == next_id,
                            in_box(w, h, seed),
                            current_ok(w, h, tiles, ids@, seed, next_id, kind, queue@, Some(cur)),
                            flooded + queue@.len() == members.len(),
                            members.finite(),
                            forall|i: int| #[trigger] members.contains(i) <==> 0 <= i < total && ids@[i] == next_id,
                            forall|q: (u32, u32)| neighbors@.contains(q) <==> {
                                &&& in_box(w, h, (q.0 as int, q.1 as int))
                                &&& ((cx - q.0 == 1 || q.0 - cx == 1) && cy == q.1 || (cy - q.1 == 1 || q.1 - cy == 1)
                                    && cx == q.0)
                            },
                            0 <= k <= neighbors@.len(),
                            forall|j: int| 0 <= j < k && linked(w, h, tiles, cur, (#[trigger] neighbors@[j].0 as int, neighbors@[j].1 as int))
                                ==> label_at(w, ids@, (neighbors@[j].0 as int, neighbors@[j].1 as int)) == next_id,
                        decreases neighbors@.len() - k,
                    {
                        let (nx, ny) = neighbors[k];
                        let ghost nq: (int, int) = (nx as int, ny as int);
                        assert(neighbors@.contains((nx, ny)));
                        proof {
                            lemma_index_in_grid(w, h, nx as int, ny as int);
                        }
                        let nidx = (ny * width + nx) as usize;
                        proof {
                            assert(cur != nq);
                        }
                        if ids[nidx] == NO_REGION {
                            let n_kind = if grid.tiles[nidx].terrain.is_water() {
                                RegionKind::Water
                            } else {
                                RegionKind::Land
                            };
                            if n_kind == kind {
                                let ghost ids_before = ids@;
                                let ghost queue_mid = queue@;
                                ids.set(nidx, next_id);
                                queue.push_back((nx, ny));
                                proof {
                                    lemma_label_update(w, h, ids_before, ids@, nq, next_id);
                                    assert(!members.contains(nidx as int));
                                    members = members.insert(nidx as int);
                                    assert(linked(w, h, tiles, cur, nq));
                                    lemma_connected_extend(w, h, tiles, seed, cur, nq);
                                    lemma_claim_keeps_finished(w, h, tiles, ids_before, ids@, regions@, seeds, next_id, nq);
                                    lemma_claim_keeps_seeds(w, h, ids_before, ids@, seeds, next_id, y * w + x, nq);
                                    assert(label_at(w, ids@, seed) == next_id);
                                    lemma_claim_keeps_scan(w, h, ids_before, ids@, next_id, y * w + x + 1, nq);
                                    lemma_claim_keeps_current(w, h, tiles, ids_before, ids@, seed, next_id, kind, queue_mid, queue@, cur, nq);
                                    assert forall|i: int| #[trigger] members.contains(i) <==> 0 <= i < total && ids@[i] == next_id by {}
                                    assert forall|j: int| 0 <= j < k + 1 && linked(w, h, tiles, cur, (#[trigger] neighbors@[j].0 as int, neighbors@[j].1 as int))
                                        implies label_at(w, ids@, (neighbors@[j].0 as int, neighbors@[j].1 as int)) == next_id by {
                                        lemma_index_in_grid(w, h, neighbors@[j].0 as int, neighbors@[j].1 as int);
                                        if j < k {
                                            assert(label_at(w, ids_before, (neighbors@[j].0 as int, neighbors@[j].1 as int)) == next_id);
                                        }
                                    }
                                }
                            } else {
                                proof {
                                    assert(!linked(w, h, tiles, cur, nq));
                                }
                            }
                        } else {
                            proof {
                                if linked(w, h, tiles, cur, nq) {
                                    let l = label_at(w, ids@, nq);
                                    if l < next_id {
                                        assert(closed_at(w, h, tiles, ids@, nq, l));
                                        assert(linked(w, h, tiles, nq, cur));
                                        assert(false);
                                    }
                                }
                            }
                        }
                        k += 1;
                    }
                    proof {
                        assert forall|q: (int, int)| #[trigger] linked(w, h, tiles, cur, q) implies label_at(w, ids@, q) == next_id by {
                            let e = (q.0 as u32, q.1 as u32);
                            assert(neighbors@.contains(e));
                            let j = choose|j: int| 0 <= j < neighbors@.len() && neighbors@[j] == e;
                        }
                        assert(closed_at(w, h, tiles, ids@, cur, next_id));
                    }
                }
                let ghost finished_id = next_id;
                regions.push(region);
                next_id = next_id + 1;
                proof {
                    assert forall|p: (int, int)| in_box(w, h, p) && #[trigger] label_at(w, ids@, p) < next_id implies {
                        &&& regions@[label_at(w, ids@, p) as int].kind == kind_at(w, tiles, p)
                        &&& connected(w, h, tiles, seeds[label_at(w, ids@, p) as int], p)
                        &&& closed_at(w, h, tiles, ids@, p, label_at(w, ids@, p))
                    } by {
                        if label_at(w, ids@, p) == finished_id {
                            assert(regions@[finished_id as int] == region);
                        } else {
                            assert(regions@[label_at(w, ids@, p) as int] == regions@.drop_last()[label_at(w, ids@, p) as int]);
                        }
                    }
                    assert forall|k: int| 0 <= k < next_id implies in_box(w, h, #[trigger] seeds[k]) by {
                        if k == finished_id {
                            assert(seeds[k] == seed);
                        }
                    }
                }
            } else {
                proof {
                    assert forall|p: (int, int)| in_box(w, h, p) && spec_index(w, p.0, p.1) < y * w + x + 1 implies #[trigger] label_at(
                        w, ids@, p) != NO_REGION by {
                        lemma_index_in_grid(w, h, p.0, p.1);
                        if spec_index(w, p.0, p.1) == y * w + x {
                            assert(p == (x as int, y as int));
                        }
                    }
                }
            }
            x += 1;
        }
        proof {
            assert(y * w + w == (y + 1) * w) by (nonlinear_arith);
        }
        y += 1;
    }
    proof {
        assert(y * w == total) by (nonlinear_arith)
            requires y == h, total == w * h;
        assert forall|j: int| 0 <= j < total implies #[trigger] ids@[j] < regions@.len() by {
            assert(w > 0) by (nonlinear_arith)
                requires total == w * h, 0 <= j < total, w >= 0, h >= 0;
            lemma_coordinate_of_index(w, h, j);
            let p = (j % w, j / w);
            assert(in_box(w, h, p));
            assert(label_at(w, ids@, p) == ids@[j]);
        }
        assert forall|c: int| 0 <= c < regions@.len() implies spans(
            #[trigger] regions@[c],
            span(w, h, ids@, c as u32, 0),
        ) by {
            assert(fresh(regions@[c]));
        }
        assert(regions@.len() == next_id);
    }
    let ghost kinds = regions@.map_values(|r: Region| r.kind);
    let mut i: usize = 0;
    while i < total
        invariant
            width == grid.width,
            height == grid.height,
            w == width as int,
            h == height as int,
            total == w * h,
            total <= u32::MAX,
            regions@.len() <= u32::MAX,
            ids@.len() == total,
            0 <= i <= total,
            regions@.len() == kinds.len(),
            forall|j: int| 0 <= j < total ==> #[trigger] ids@[j] < regions@.len(),
            forall|c: int| 0 <= c < regions@.len() ==> (#[trigger] regions@[c]).kind == kinds[c],
            forall|c: int| 0 <= c < regions@.len() ==> spans(#[trigger] regions@[c], span(w, h, ids@, c as u32, i as int)),
        decreases total - i,
    {
        proof {
            assert(w > 0) by (nonlinear_arith)
                requires total == w * h, 0 <= i < total, w >= 0, h >= 0;
        }
        let c = ids[i] as usize;
        let cx = (i as u32) % width;
        let cy = (i as u32) / width;
        let mut region = regions[c];
        proof {
            lemma_span_bounds(w, h, ids@, c as u32, i as int);
            lemma_coordinate_of_index(w, h, i as int);
        }
        region.tile_count = region.tile_count + 1;
        if cx < region.min_x {
            region.min_x = cx;
        }
        if cx > region.max_x {
            region.max_x = cx;
        }
        if cy < region.min_y {
            region.min_y = cy;
        }
        if cy > region.max_y {
            region.max_y = cy;
        }
        if cx == 0 || cy == 0 || cx == width - 1 || cy == height - 1 {
            region.touches_border = true;
        }
        let ghost before = regions@;
        regions.set(c, region);
        proof {
            assert forall|d: int| 0 <= d < regions@.len() implies spans(
                #[trigger] regions@[d],
                span(w, h, ids@, d as u32, i + 1),
            ) by {
                if d != c as int {
                    assert(regions@[d] == before[d]);
                    assert(ids@[i as int] != d as u32);
                }
            }
        }
        i += 1;
    }
    let ghost final_ids = ids@;
    let ghost final_regions = regions@;
    grid.region_ids = ids;
    grid.regions = regions;
    proof {
        assert(h * w == w * h) by (nonlinear_arith);
        assert forall|p: (int, int), q: (int, int)| in_box(w, h, p) && in_box(w, h, q) implies (label_at(w, final_ids, p)
            == label_at(w, final_ids, q) <==> connected(w, h, tiles, p, q)) by {
            lemma_index_in_grid(w, h, p.0, p.1);
            lemma_index_in_grid(w, h, q.0, q.1);
            let lp = label_at(w, final_ids, p);
            let lq = label_at(w, final_ids, q);
            if lp == lq {
                lemma_connected_symmetric(w, h, tiles, seeds[lp as int], p);
                lemma_connected_transitive(w, h, tiles, p, seeds[lp as int], q);
            }
            if connected(w, h, tiles, p, q) {
                let s = choose|s: Seq<(int, int)>| #[trigger] is_walk(w, h, tiles, s) && s[0] == p && s.last() == q;
                assert forall|a: (int, int), b: (int, int)| #[trigger] linked(w, h, tiles, a, b) implies label_at(w, final_ids, a)
                    == label_at(w, final_ids, b) by {
                    lemma_index_in_grid(w, h, a.0, a.1);
                    assert(closed_at(w, h, tiles, final_ids, a, label_at(w, final_ids, a)));
                }
                lemma_walk_keeps_label(w, h, tiles, final_ids, s);
            }
        }
        assert forall|p: (int, int)| #[trigger] in_box(w, h, p) && label_at(w, final_ids, p) > 0 implies exists|q: (int, int)|
            in_box(w, h, q) && spec_index(w, q.0, q.1) < spec_index(w, p.0, p.1) && label_at(w, final_ids, q) + 1
                == label_at(w, final_ids, p) by {
            let c = label_at(w, final_ids, p);
            lemma_index_in_grid(w, h, p.0, p.1);
            assert(c < final_regions.len());
            let q = seeds[c - 1];
            assert(in_box(w, h, q));
            assert(label_at(w, final_ids, q) == c - 1);
            lemma_index_in_grid(w, h, q.0, q.1);
            if spec_index(w, p.0, p.1) < spec_index(w, q.0, q.1) {
                assert(label_at(w, final_ids, p) < c - 1);
            }
            assert(spec_index(w, q.0, q.1) < spec_index(w, p.0, p.1));
        }
        assert forall|p: (int, int)| #[trigger] in_box(w, h, p) implies {
            let id = label_at(w, final_ids, p);
            &&& id < final_regions.len()
            &&& final_regions[id as int].kind == kind_at(w, tiles, p)
        } by {
            lemma_index_in_grid(w, h, p.0, p.1);
        }
    }
}

} // verus!
