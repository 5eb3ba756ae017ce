//! Breadth-first search on a grid: what the search keeps while it runs.
//!
//! The search holds the cells it has seen in the order in which it saw
//! them, with the parent from which each was seen and its distance from the
//! start. The cells before the head of the order are settled: all their open
//! neighbours have been seen.

use crate::grid::{lemma_step_inside, Direction, Grid};
use crate::turns::{
    lemma_heading,
    lemma_heading_leads,
    lemma_precedes_last,
    lemma_precedes_push,
    lemma_precedes_transitive,
    lemma_turns_push,
    lemma_turns_tell_path,
    not_after,
    precedes,
};
use vstd::prelude::*;

verus! {

/// The neighbour of `at` in the given direction, if it is open and not seen.
pub open spec fn fresh_toward(grid: Grid, seen: Seq<bool>, at: int, toward: Direction) -> Seq<
    usize,
> {
    if grid.free_toward(seen, at, toward) {
        seq![grid.step(at, toward) as usize]
    } else {
        Seq::empty()
    }
}

/// The open neighbours of `at` that are not seen: above, below, left, right.
pub open spec fn fresh_neighbors(grid: Grid, seen: Seq<bool>, at: int) -> Seq<usize> {
    fresh_toward(grid, seen, at, Direction::Up) + fresh_toward(grid, seen, at, Direction::Down)
        + fresh_toward(grid, seen, at, Direction::Left) + fresh_toward(
        grid,
        seen,
        at,
        Direction::Right,
    )
}

/// Every open neighbour of `at` has been seen, at most one step further from
/// the start than `at`.
pub open spec fn settled(grid: Grid, seen: Seq<bool>, dist: Seq<int>, at: int) -> bool {
    forall|toward: Direction| #[trigger]
        grid.open_toward(at, toward) ==> seen[grid.step(at, toward)] && dist[grid.step(
            at,
            toward,
        )] <= dist[at] + 1
}

/// The seen cells form a tree of open cells rooted in `start`: every other
/// seen cell has a seen neighbour as its parent, one step nearer the start.
#[verifier::opaque]
pub open spec fn chained(
    grid: Grid,
    start: int,
    seen: Seq<bool>,
    parent: Seq<Option<usize>>,
    dist: Seq<int>,
) -> bool {
    &&& seen.len() == grid.size()
    &&& parent.len() == grid.size()
    &&& dist.len() == grid.size()
    &&& 0 <= start < grid.size()
    &&& seen[start]
    &&& dist[start] == 0
    &&& forall|v: int|
        0 <= v < grid.size() && #[trigger] seen[v] ==> grid.is_open(v) && dist[v] >= 0
    &&& forall|v: int|
        0 <= v < grid.size() && seen[v] && v != start ==> {
            &&& (#[trigger] parent[v]) matches Some(p)
            &&& p < grid.size()
            &&& seen[p as int]
            &&& grid.adjacent(p as int, v)
            &&& dist[v] == dist[p as int] + 1
        }
}

/// The cells of `order` are the seen cells, each once, in the order of their
/// distance from the start; none is more than one step further than the cell
/// at `head`; the cells before `head` are settled.
#[verifier::opaque]
pub open spec fn queued(
    grid: Grid,
    order: Seq<usize>,
    head: int,
    seen: Seq<bool>,
    dist: Seq<int>,
) -> bool {
    &&& 0 <= head <= order.len()
    &&& grid.size() <= usize::MAX
    &&& order.no_duplicates()
    &&& forall|b: int|
        0 <= b < order.len() ==> (#[trigger] order[b]) < grid.size() && seen[order[b] as int]
    &&& forall|v: int| 0 <= v < grid.size() && #[trigger] seen[v] ==> order.contains(v as usize)
    &&& forall|a: int, b: int|
        0 <= a <= b < order.len() ==> dist[(#[trigger] order[a]) as int] <= dist[(
        #[trigger] order[b]) as int]
    &&& head < order.len() ==> forall|b: int|
        0 <= b < order.len() ==> dist[(#[trigger] order[b]) as int] <= dist[order[head] as int] + 1
    &&& forall|a: int| 0 <= a < head ==> settled(grid, seen, dist, (#[trigger] order[a]) as int)
}

/// Along a path from the start, as far as the cells nearer than `limit` are
/// settled, each cell has been seen and is no further than its position.
pub proof fn lemma_path_within(
    grid: Grid,
    start: int,
    seen: Seq<bool>,
    dist: Seq<int>,
    limit: int,
    path: Seq<usize>,
    k: int,
)
    requires
        seen[start],
        dist[start] == 0,
        forall|v: int|
            0 <= v < grid.size() && #[trigger] seen[v] && dist[v] < limit ==> settled(
                grid,
                seen,
                dist,
                v,
            ),
        grid.is_path(path),
        path[0] == start,
        0 <= k < path.len(),
        k <= limit,
    ensures
        seen[path[k] as int],
        dist[path[k] as int] <= k,
    decreases k,
{
    if k > 0 {
        lemma_path_within(grid, start, seen, dist, limit, path, k - 1);
        let via = path[k - 1] as int;
        let to = path[k] as int;
        assert(grid.is_open(via));
        assert(grid.is_open(to));
        assert(grid.adjacent(path[k - 1] as int, path[k - 1 + 1] as int));
        assert(settled(grid, seen, dist, via));
        if grid.can_step(via, Direction::Up) && grid.step(via, Direction::Up) == to {
            assert(grid.open_toward(via, Direction::Up));
        } else if grid.can_step(via, Direction::Down) && grid.step(via, Direction::Down) == to {
            assert(grid.open_toward(via, Direction::Down));
        } else if grid.can_step(via, Direction::Left) && grid.step(via, Direction::Left) == to {
            assert(grid.open_toward(via, Direction::Left));
        } else {
            assert(grid.open_toward(via, Direction::Right));
        }
    }
}

/// A path goes on to an open neighbour of its last cell.
pub proof fn lemma_path_append(grid: Grid, path: Seq<usize>, to: usize)
    requires
        grid.is_path(path),
        grid.is_open(to as int),
        grid.adjacent(path.last() as int, to as int),
    ensures
        grid.is_path(path.push(to)),
{
    let longer = path.push(to);
    assert forall|k: int| 0 <= k < longer.len() implies grid.is_open(#[trigger] longer[k] as int) by {
        if k < path.len() {
            assert(longer[k] == path[k]);
        }
    }
    assert forall|k: int| 0 <= k < longer.len() - 1 implies grid.adjacent(
        #[trigger] longer[k] as int,
        longer[k + 1] as int,
    ) by {
        if k < path.len() - 1 {
            assert(longer[k] == path[k]);
            assert(longer[k + 1] == path[k + 1]);
            assert(grid.adjacent(path[k] as int, path[k + 1] as int));
        } else {
            assert(longer[k] == path.last());
        }
    }
}

/// Seeing a fresh neighbour of the cell at `head` keeps the search in order.
pub proof fn lemma_search_step(
    grid: Grid,
    start: int,
    order: Seq<usize>,
    head: int,
    seen: Seq<bool>,
    parent: Seq<Option<usize>>,
    dist: Seq<int>,
    next: usize,
)
    requires
        chained(grid, start, seen, parent, dist),
        queued(grid, order, head, seen, dist),
        head < order.len(),
        next < grid.size(),
        !seen[next as int],
        grid.is_open(next as int),
        grid.adjacent(order[head] as int, next as int),
    ensures
        chained(
            grid,
            start,
            seen.update(next as int, true),
            parent.update(next as int, Some(order[head])),
            dist.update(next as int, dist[order[head] as int] + 1),
        ),
        queued(
            grid,
            order.push(next),
            head,
            seen.update(next as int, true),
            dist.update(next as int, dist[order[head] as int] + 1),
        ),
{
    reveal(chained);
    reveal(queued);
    let current = order[head];
    let level = dist[current as int];
    let seen2 = seen.update(next as int, true);
    let parent2 = parent.update(next as int, Some(current));
    let dist2 = dist.update(next as int, level + 1);
    let order2 = order.push(next);
    assert(seen[current as int]);
    assert forall|b: int| 0 <= b < order.len() implies order[b] != next by {
        assert(seen[order[b] as int]);
    }
    assert forall|v: int| 0 <= v < grid.size() && #[trigger] seen2[v] implies grid.is_open(v)
        && dist2[v] >= 0 by {
        if v != next {
            assert(seen[v]);
        }
    }
    assert forall|v: int| 0 <= v < grid.size() && seen2[v] && v != start implies {
        &&& (#[trigger] parent2[v]) matches Some(p)
        &&& p < grid.size()
        &&& seen2[p as int]
        &&& grid.adjacent(p as int, v)
        &&& dist2[v] == dist2[p as int] + 1
    } by {
        if v != next {
            assert(seen[v]);
            let p = parent[v]->Some_0;
            assert(seen[p as int]);
        }
    }
    assert forall|v: int| 0 <= v < grid.size() && #[trigger] seen2[v] implies order2.contains(
        v as usize,
    ) by {
        if v == next {
            assert(order2[order.len() as int] == next);
        } else {
            assert(seen[v]);
            let b = choose|b: int| 0 <= b < order.len() && order[b] == v as usize;
            assert(order2[b] == v as usize);
        }
    }
    assert forall|a: int, b: int| 0 <= a <= b < order2.len() implies dist2[(
    #[trigger] order2[a]) as int] <= dist2[(#[trigger] order2[b]) as int] by {
        if b < order.len() {
            assert(order2[a] == order[a] && order2[b] == order[b]);
        } else if a < order.len() {
            assert(order2[a] == order[a]);
        }
    }
    assert forall|b: int| 0 <= b < order2.len() implies dist2[(#[trigger] order2[b]) as int]
        <= dist2[order2[head] as int] + 1 by {
        if b < order.len() {
            assert(order2[b] == order[b]);
        }
    }
    assert forall|a: int| 0 <= a < head implies settled(
        grid,
        seen2,
        dist2,
        (#[trigger] order2[a]) as int,
    ) by {
        let at = order[a] as int;
        assert(order2[a] == order[a]);
        assert(settled(grid, seen, dist, at));
        assert forall|toward: Direction| #[trigger] grid.open_toward(at, toward) implies seen2[grid.step(
            at,
            toward,
        )] && dist2[grid.step(at, toward)] <= dist2[at] + 1 by {
            assert(seen[grid.step(at, toward)]);
        }
    }
    assert forall|b: int| 0 <= b < order2.len() implies (#[trigger] order2[b]) < grid.size()
        && seen2[order2[b] as int] by {
        if b < order.len() {
            assert(order2[b] == order[b]);
        }
    }
}

/// Once the cell at `head` is settled the search may go on to the next.
pub proof fn lemma_search_advance(
    grid: Grid,
    order: Seq<usize>,
    head: int,
    seen: Seq<bool>,
    dist: Seq<int>,
)
    requires
        queued(grid, order, head, seen, dist),
        head < order.len(),
        settled(grid, seen, dist, order[head] as int),
    ensures
        queued(grid, order, head + 1, seen, dist),
{
    reveal(queued);
    if head + 1 < order.len() {
        assert forall|b: int| 0 <= b < order.len() implies dist[(#[trigger] order[b]) as int]
            <= dist[order[head + 1] as int] + 1 by {
            assert(dist[order[head] as int] <= dist[order[head + 1] as int]);
        }
    }
}

/// In a search that is in order, every seen cell nearer the start than the
/// cell at `head` is settled.
pub proof fn lemma_nearer_settled(
    grid: Grid,
    order: Seq<usize>,
    head: int,
    seen: Seq<bool>,
    dist: Seq<int>,
    v: int,
)
    requires
        queued(grid, order, head, seen, dist),
        0 <= v < grid.size(),
        seen[v],
        head < order.len() ==> dist[v] < dist[order[head] as int],
    ensures
        settled(grid, seen, dist, v),
{
    reveal(queued);
    let b = choose|b: int| 0 <= b < order.len() && order[b] == v as usize;
    if b >= head {
        assert(dist[order[head] as int] <= dist[order[b] as int]);
    }
    assert(settled(grid, seen, dist, order[b] as int));
}

/// The number of fresh neighbours that come before the one in the given
/// direction.
pub open spec fn fresh_before(grid: Grid, seen: Seq<bool>, at: int, toward: Direction) -> int {
    let up = fresh_toward(grid, seen, at, Direction::Up).len() as int;
    let down = fresh_toward(grid, seen, at, Direction::Down).len() as int;
    let left = fresh_toward(grid, seen, at, Direction::Left).len() as int;
    match toward {
        Direction::Up => 0,
        Direction::Down => up,
        Direction::Left => up + down,
        Direction::Right => up + down + left,
    }
}

/// The direction in which the fresh neighbour at position `k` lies.
pub proof fn lemma_fresh_direction(grid: Grid, seen: Seq<bool>, at: int, k: int) -> (toward:
    Direction)
    requires
        grid.wf(),
        grid.size() <= usize::MAX,
        0 <= k < fresh_neighbors(grid, seen, at).len(),
    ensures
        grid.open_toward(at, toward),
        !seen[grid.step(at, toward)],
        fresh_neighbors(grid, seen, at)[k] == grid.step(at, toward),
        k == fresh_before(grid, seen, at, toward),
{
    let up = fresh_toward(grid, seen, at, Direction::Up);
    let down = fresh_toward(grid, seen, at, Direction::Down);
    let left = fresh_toward(grid, seen, at, Direction::Left);
    let right = fresh_toward(grid, seen, at, Direction::Right);
    let all = fresh_neighbors(grid, seen, at);
    if grid.can_step(at, Direction::Up) {
        lemma_step_inside(grid.width as int, grid.height as int, at, Direction::Up);
    }
    if grid.can_step(at, Direction::Down) {
        lemma_step_inside(grid.width as int, grid.height as int, at, Direction::Down);
    }
    if grid.can_step(at, Direction::Left) {
        lemma_step_inside(grid.width as int, grid.height as int, at, Direction::Left);
    }
    if grid.can_step(at, Direction::Right) {
        lemma_step_inside(grid.width as int, grid.height as int, at, Direction::Right);
    }
    if k < up.len() {
        assert(all[k] == up[k]);
        Direction::Up
    } else if k < up.len() + down.len() {
        assert(all[k] == down[k - up.len()]);
        Direction::Down
    } else if k < up.len() + down.len() + left.len() {
        assert(all[k] == left[k - up.len() - down.len()]);
        Direction::Left
    } else {
        assert(all[k] == right[k - up.len() - down.len() - left.len()]);
        Direction::Right
    }
}

/// What holds of each fresh neighbour: it is an open neighbour that has not
/// been seen, and it occurs once.
pub proof fn lemma_fresh(grid: Grid, seen: Seq<bool>, at: int, k: int)
    requires
        grid.wf(),
        grid.size() <= usize::MAX,
        0 <= k < fresh_neighbors(grid, seen, at).len(),
    ensures
        grid.is_open(fresh_neighbors(grid, seen, at)[k] as int),
        grid.adjacent(at, fresh_neighbors(grid, seen, at)[k] as int),
        !seen[fresh_neighbors(grid, seen, at)[k] as int],
        forall|l: int|
            0 <= l < fresh_neighbors(grid, seen, at).len() && l != k ==> fresh_neighbors(
                grid,
                seen,
                at,
            )[l] != fresh_neighbors(grid, seen, at)[k],
{
    let all = fresh_neighbors(grid, seen, at);
    let width = grid.width as int;
    let height = grid.height as int;
    let toward = lemma_fresh_direction(grid, seen, at, k);
    lemma_step_inside(width, height, at, toward);
    if width == 1 {
        assert(at % 1 == 0);
    }
    assert forall|l: int| 0 <= l < all.len() && l != k implies all[l] != all[k] by {
        let other = lemma_fresh_direction(grid, seen, at, l);
        lemma_step_inside(width, height, at, other);
    }
}

/// Every open neighbour that has not been seen is among the fresh ones.
pub proof fn lemma_fresh_complete(grid: Grid, seen: Seq<bool>, at: int, toward: Direction)
    requires
        grid.wf(),
        grid.size() <= usize::MAX,
        grid.open_toward(at, toward),
        !seen[grid.step(at, toward)],
    ensures
        fresh_neighbors(grid, seen, at).contains(grid.step(at, toward) as usize),
{
    let up = fresh_toward(grid, seen, at, Direction::Up);
    let down = fresh_toward(grid, seen, at, Direction::Down);
    let left = fresh_toward(grid, seen, at, Direction::Left);
    let right = fresh_toward(grid, seen, at, Direction::Right);
    let all = fresh_neighbors(grid, seen, at);
    let target = grid.step(at, toward) as usize;
    match toward {
        Direction::Up => {
            assert(all[0] == target);
        },
        Direction::Down => {
            assert(all[up.len() as int] == target);
        },
        Direction::Left => {
            assert(all[(up.len() + down.len()) as int] == target);
        },
        Direction::Right => {
            assert(all[(up.len() + down.len() + left.len()) as int] == target);
        },
    }
}

/// Among the paths from `start` to the last cell of `path` that are as long
/// as `path`, none has turns that come before those of `path`.
pub open spec fn foremost(grid: Grid, start: int, path: Seq<usize>) -> bool {
    forall|other: Seq<usize>| #[trigger]
        grid.joins(other, start, path.last() as int) && other.len() == path.len() ==> not_after(
            grid.turns(path),
            grid.turns(other),
        )
}

/// Each seen cell has its route: the route of the start is the start, the
/// route of any other seen cell is the route of its parent and the cell.
#[verifier::opaque]
pub open spec fn threaded(
    grid: Grid,
    start: int,
    seen: Seq<bool>,
    parent: Seq<Option<usize>>,
    route: Seq<Seq<usize>>,
) -> bool {
    &&& route.len() == grid.size()
    &&& route[start] == seq![start as usize]
    &&& forall|v: int|
        0 <= v < grid.size() && seen[v] && v != start ==> route[v] == route[(
        #[trigger] parent[v])->Some_0 as int].push(v as usize)
}

/// The routes of the seen cells are foremost paths, one cell longer than the
/// distance; each seen cell knows its place in the order; and the order goes
/// by distance first and by the turns of the routes second.
#[verifier::opaque]
pub open spec fn routed(
    grid: Grid,
    start: int,
    order: Seq<usize>,
    seen: Seq<bool>,
    dist: Seq<int>,
    route: Seq<Seq<usize>>,
    place: Seq<int>,
) -> bool {
    &&& route.len() == grid.size()
    &&& place.len() == grid.size()
    &&& forall|v: int|
        0 <= v < grid.size() && #[trigger] seen[v] ==> {
            &&& 0 <= place[v] < order.len()
            &&& order[place[v]] == v
            &&& grid.joins(route[v], start, v)
            &&& route[v].len() == dist[v] + 1
            &&& foremost(grid, start, route[v])
        }
    &&& forall|a: int, b: int|
        0 <= a < b < order.len() ==> dist[(#[trigger] order[a]) as int] < dist[(
        #[trigger] order[b]) as int] || precedes(
            grid.turns(route[order[a] as int]),
            grid.turns(route[order[b] as int]),
        )
}

/// The parent of each seen cell has its place before `head`, or at `head`
/// where the cell is one of `children`.
#[verifier::opaque]
pub open spec fn reared(
    grid: Grid,
    start: int,
    head: int,
    seen: Seq<bool>,
    parent: Seq<Option<usize>>,
    place: Seq<int>,
    children: Seq<usize>,
) -> bool {
    forall|w: int|
        0 <= w < grid.size() && seen[w] && w != start ==> {
            let from = place[(#[trigger] parent[w])->Some_0 as int];
            from < head || (from == head && children.contains(w as usize))
        }
}

/// A path of more than one cell without its last cell is a path.
pub proof fn lemma_path_drop_last(grid: Grid, path: Seq<usize>)
    requires
        grid.is_path(path),
        path.len() >= 2,
    ensures
        grid.is_path(path.drop_last()),
        grid.adjacent(path[path.len() - 2] as int, path.last() as int),
        path == path.drop_last().push(path.last()),
{
    let shorter = path.drop_last();
    assert forall|k: int| 0 <= k < shorter.len() implies grid.is_open(#[trigger] shorter[k] as int) by {
        assert(shorter[k] == path[k]);
    }
    assert forall|k: int| 0 <= k < shorter.len() - 1 implies grid.adjacent(
        #[trigger] shorter[k] as int,
        shorter[k + 1] as int,
    ) by {
        assert(shorter[k] == path[k]);
        assert(shorter[k + 1] == path[k + 1]);
        assert(grid.adjacent(path[k] as int, path[k + 1] as int));
    }
    assert(grid.adjacent(path[path.len() - 2] as int, path[path.len() - 2 + 1] as int));
    assert(path =~= shorter.push(path.last()));
}

/// The route of the cell at `head` with a neighbour that has not been seen
/// is foremost among the paths to that neighbour.
pub proof fn lemma_discovery_foremost(
    grid: Grid,
    start: int,
    order: Seq<usize>,
    head: int,
    seen: Seq<bool>,
    parent: Seq<Option<usize>>,
    dist: Seq<int>,
    route: Seq<Seq<usize>>,
    place: Seq<int>,
    to: usize,
)
    requires
        grid.wf(),
        chained(grid, start, seen, parent, dist),
        queued(grid, order, head, seen, dist),
        routed(grid, start, order, seen, dist, route, place),
        head < order.len(),
        to < grid.size(),
        !seen[to as int],
        grid.is_open(to as int),
        grid.adjacent(order[head] as int, to as int),
    ensures
        foremost(grid, start, route[order[head] as int].push(to)),
{
    reveal(chained);
    reveal(queued);
    reveal(routed);
    let current = order[head];
    let level = dist[current as int];
    let way = route[current as int].push(to);
    assert(seen[current as int]);
    assert forall|other: Seq<usize>| #[trigger]
        grid.joins(other, start, way.last() as int) && other.len() == way.len() implies not_after(
        grid.turns(way),
        grid.turns(other),
    ) by {
        lemma_path_drop_last(grid, other);
        let prefix = other.drop_last();
        let via = prefix.last();
        assert(via == other[other.len() - 2]);
        assert forall|v: int| 0 <= v < grid.size() && #[trigger] seen[v] && dist[v] < level implies settled(
            grid,
            seen,
            dist,
            v,
        ) by {
            lemma_nearer_settled(grid, order, head, seen, dist, v);
        }
        lemma_path_within(grid, start, seen, dist, level, other, other.len() - 2);
        assert(seen[via as int] && dist[via as int] <= level);
        let at = place[via as int];
        if at < head {
            assert(settled(grid, seen, dist, order[at] as int));
            lemma_heading_leads(grid, via as int, to as int);
            assert(grid.open_toward(via as int, grid.heading(via as int, to as int)));
        }
        assert(dist[order[head] as int] <= dist[order[at] as int]);
        assert(grid.joins(prefix, start, via as int));
        assert(foremost(grid, start, route[via as int]));
        assert(route[via as int].last() == via);
        let mine = grid.turns(route[current as int]);
        let theirs = grid.turns(route[via as int]);
        let given = grid.turns(prefix);
        assert(not_after(theirs, given));
        if at > head {
            assert(precedes(grid.turns(route[order[head] as int]), grid.turns(route[order[at] as int])));
        }
        lemma_turns_push(grid, route[current as int], to);
        lemma_turns_push(grid, prefix, to);
        if mine == given {
            lemma_turns_tell_path(grid, route[current as int], prefix);
        } else {
            assert(precedes(mine, given)) by {
                if at > head {
                    if theirs != given {
                        lemma_precedes_transitive(mine, theirs, given);
                    }
                }
            }
            lemma_precedes_push(
                mine,
                given,
                grid.heading(current as int, to as int).rank(),
                grid.heading(via as int, to as int).rank(),
            );
        }
    }
}

/// Seeing the next fresh neighbour of the cell at `head` keeps the routes.
pub proof fn lemma_route_step(
    grid: Grid,
    start: int,
    order: Seq<usize>,
    head: int,
    seen: Seq<bool>,
    parent: Seq<Option<usize>>,
    dist: Seq<int>,
    route: Seq<Seq<usize>>,
    place: Seq<int>,
    seen_before: Seq<bool>,
    count: int,
)
    requires
        grid.wf(),
        grid.size() <= usize::MAX,
        chained(grid, start, seen, parent, dist),
        queued(grid, order, head, seen, dist),
        threaded(grid, start, seen, parent, route),
        routed(grid, start, order, seen, dist, route, place),
        head < order.len(),
        0 <= count < fresh_neighbors(grid, seen_before, order[head] as int).len(),
        reared(
            grid,
            start,
            head,
            seen,
            parent,
            place,
            fresh_neighbors(grid, seen_before, order[head] as int).take(count),
        ),
        !seen[fresh_neighbors(grid, seen_before, order[head] as int)[count] as int],
    ensures
        ({
            let current = order[head];
            let fresh = fresh_neighbors(grid, seen_before, current as int);
            let next = fresh[count];
            let seen2 = seen.update(next as int, true);
            let parent2 = parent.update(next as int, Some(current));
            let dist2 = dist.update(next as int, dist[current as int] + 1);
            let route2 = route.update(next as int, route[current as int].push(next));
            let place2 = place.update(next as int, order.len() as int);
            &&& threaded(grid, start, seen2, parent2, route2)
            &&& routed(grid, start, order.push(next), seen2, dist2, route2, place2)
            &&& reared(grid, start, head, seen2, parent2, place2, fresh.take(count + 1))
        }),
{
    reveal(chained);
    reveal(queued);
    reveal(threaded);
    reveal(routed);
    reveal(reared);
    let current = order[head];
    let level = dist[current as int];
    let fresh = fresh_neighbors(grid, seen_before, current as int);
    let next = fresh[count];
    let seen2 = seen.update(next as int, true);
    let parent2 = parent.update(next as int, Some(current));
    let dist2 = dist.update(next as int, level + 1);
    let route2 = route.update(next as int, route[current as int].push(next));
    let place2 = place.update(next as int, order.len() as int);
    let order2 = order.push(next);
    lemma_fresh(grid, seen_before, current as int, count);
    let toward = lemma_fresh_direction(grid, seen_before, current as int, count);
    lemma_heading(grid, current as int, toward);
    assert(seen[current as int]);
    assert(place[current as int] == head) by {
        let at = place[current as int];
        assert(order[at] == current);
    }
    lemma_discovery_foremost(grid, start, order, head, seen, parent, dist, route, place, next);
    lemma_path_append(grid, route[current as int], next);
    assert(next as int != start);

    assert forall|v: int| 0 <= v < grid.size() && seen2[v] && v != start implies route2[v]
        == route2[(#[trigger] parent2[v])->Some_0 as int].push(v as usize) by {
        if v != next {
            assert(seen[v]);
            let from = parent[v]->Some_0;
            assert(seen[from as int]);
        }
    }
    assert forall|v: int| 0 <= v < grid.size() && #[trigger] seen2[v] implies {
        &&& 0 <= place2[v] < order2.len()
        &&& order2[place2[v]] == v
        &&& grid.joins(route2[v], start, v)
        &&& route2[v].len() == dist2[v] + 1
        &&& foremost(grid, start, route2[v])
    } by {
        if v != next {
            assert(seen[v]);
            assert(order2[place[v]] == order[place[v]]);
        }
    }
    assert forall|a: int, b: int| 0 <= a < b < order2.len() implies dist2[(
    #[trigger] order2[a]) as int] < dist2[(#[trigger] order2[b]) as int] || precedes(
        grid.turns(route2[order2[a] as int]),
        grid.turns(route2[order2[b] as int]),
    ) by {
        let first = order[a];
        assert(order2[a] == first);
        assert(seen[first as int]);
        if b < order.len() {
            assert(order2[b] == order[b]);
            assert(seen[order[b] as int]);
        } else {
            assert(order2[b] == next);
            assert(dist[first as int] <= level + 1);
            if dist[first as int] == level + 1 {
                let from = parent[first as int]->Some_0;
                assert(seen[from as int]);
                assert(dist[from as int] == level);
                let at = place[from as int];
                assert(order[at] == from);
                lemma_turns_push(grid, route[from as int], first);
                lemma_turns_push(grid, route[current as int], next);
                if at < head {
                    assert(precedes(
                        grid.turns(route[order[at] as int]),
                        grid.turns(route[order[head] as int]),
                    ));
                    lemma_precedes_push(
                        grid.turns(route[from as int]),
                        grid.turns(route[current as int]),
                        grid.heading(from as int, first as int).rank(),
                        grid.heading(current as int, next as int).rank(),
                    );
                } else {
                    assert(from == current);
                    let earlier = fresh.take(count);
                    assert(earlier.contains(first));
                    let l = choose|l: int| 0 <= l < earlier.len() && earlier[l] == first;
                    assert(fresh[l] == first);
                    let before = lemma_fresh_direction(grid, seen_before, current as int, l);
                    lemma_heading(grid, current as int, before);
                    assert(before.rank() < toward.rank());
                    lemma_precedes_last(
                        grid.turns(route[current as int]),
                        before.rank(),
                        toward.rank(),
                    );
                }
            }
        }
    }
    assert forall|w: int| 0 <= w < grid.size() && seen2[w] && w != start implies {
        let from = place2[(#[trigger] parent2[w])->Some_0 as int];
        from < head || (from == head && fresh.take(count + 1).contains(w as usize))
    } by {
        let later = fresh.take(count + 1);
        if w == next {
            assert(later[count] == next);
        } else {
            assert(seen[w]);
            let from = parent[w]->Some_0;
            assert(seen[from as int]);
            if place[from as int] >= head {
                let earlier = fresh.take(count);
                let l = choose|l: int| 0 <= l < earlier.len() && earlier[l] == w as usize;
                assert(later[l] == w as usize);
            }
        }
    }
}

/// What the search knows of its order and of the cell at its head.
pub proof fn lemma_search_facts(
    grid: Grid,
    start: int,
    order: Seq<usize>,
    head: int,
    seen: Seq<bool>,
    parent: Seq<Option<usize>>,
    dist: Seq<int>,
)
    requires
        chained(grid, start, seen, parent, dist),
        queued(grid, order, head, seen, dist),
    ensures
        seen.len() == grid.size(),
        parent.len() == grid.size(),
        dist.len() == grid.size(),
        0 <= head <= order.len(),
        order.no_duplicates(),
        forall|b: int| 0 <= b < order.len() ==> #[trigger] order[b] < grid.size(),
        head < order.len() ==> seen[order[head] as int] && grid.is_open(order[head] as int),
{
    reveal(chained);
    reveal(queued);
    if head < order.len() {
        assert(seen[order[head] as int]);
    }
}

/// The search before its first step: the start is seen, and is the order.
pub proof fn lemma_search_begins(grid: Grid, start: usize)
    requires
        grid.wf(),
        grid.size() <= usize::MAX,
        grid.is_open(start as int),
    ensures
        ({
            let size = grid.size() as nat;
            let seen = Seq::new(size, |i: int| false).update(start as int, true);
            let parent = Seq::new(size, |i: int| None::<usize>);
            let dist = Seq::new(size, |i: int| 0int);
            let route = Seq::new(size, |i: int| seq![start]);
            let place = Seq::new(size, |i: int| 0int);
            let order = seq![start];
            &&& chained(grid, start as int, seen, parent, dist)
            &&& queued(grid, order, 0, seen, dist)
            &&& threaded(grid, start as int, seen, parent, route)
            &&& routed(grid, start as int, order, seen, dist, route, place)
            &&& reared(grid, start as int, 0, seen, parent, place, Seq::empty())
        }),
{
    reveal(chained);
    reveal(queued);
    reveal(threaded);
    reveal(routed);
    reveal(reared);
    let size = grid.size() as nat;
    let seen = Seq::new(size, |i: int| false).update(start as int, true);
    let route = Seq::new(size, |i: int| seq![start]);
    let order = seq![start];
    let way = route[start as int];
    assert(order[0] == start);
    assert(grid.is_path(way));
    assert forall|other: Seq<usize>| #[trigger]
        grid.joins(other, start as int, way.last() as int) && other.len() == way.len() implies not_after(
        grid.turns(way),
        grid.turns(other),
    ) by {
        assert(grid.turns(way) =~= grid.turns(other));
    }
}

/// Once the fresh neighbours of the cell at `head` have been seen, one step
/// further than the cell, the cell is settled.
pub proof fn lemma_settles(
    grid: Grid,
    order: Seq<usize>,
    head: int,
    seen: Seq<bool>,
    dist: Seq<int>,
    seen_before: Seq<bool>,
)
    requires
        grid.wf(),
        queued(grid, order, head, seen, dist),
        head < order.len(),
        seen_before.len() == grid.size(),
        forall|v: int| 0 <= v < grid.size() && seen_before[v] ==> seen[v],
        forall|l: int|
            0 <= l < fresh_neighbors(grid, seen_before, order[head] as int).len() ==> seen[(
            #[trigger] fresh_neighbors(grid, seen_before, order[head] as int)[l]) as int]
                && dist[fresh_neighbors(grid, seen_before, order[head] as int)[l] as int]
                == dist[order[head] as int] + 1,
    ensures
        settled(grid, seen, dist, order[head] as int),
{
    reveal(queued);
    let current = order[head];
    let fresh = fresh_neighbors(grid, seen_before, current as int);
    assert forall|toward: Direction| #[trigger]
        grid.open_toward(current as int, toward) implies seen[grid.step(current as int, toward)]
        && dist[grid.step(current as int, toward)] <= dist[current as int] + 1 by {
        let to = grid.step(current as int, toward);
        lemma_step_inside(grid.width as int, grid.height as int, current as int, toward);
        if seen_before[to] {
            assert(seen[to]);
            let b = choose|b: int| 0 <= b < order.len() && order[b] == to as usize;
            assert(dist[order[b] as int] <= dist[order[head] as int] + 1);
        } else {
            lemma_fresh_complete(grid, seen_before, current as int, toward);
            let l = choose|l: int| 0 <= l < fresh.len() && fresh[l] == to as usize;
            assert(seen[fresh[l] as int]);
        }
    }
}

/// Where the cell at `head` has the cell `to` for a neighbour, and `to` has
/// not been seen, the route of the cell at `head` and `to` are the foremost
/// of the shortest paths to `to`.
pub proof fn lemma_found(
    grid: Grid,
    start: int,
    order: Seq<usize>,
    head: int,
    seen: Seq<bool>,
    parent: Seq<Option<usize>>,
    dist: Seq<int>,
    route: Seq<Seq<usize>>,
    place: Seq<int>,
    to: usize,
)
    requires
        grid.wf(),
        chained(grid, start, seen, parent, dist),
        queued(grid, order, head, seen, dist),
        routed(grid, start, order, seen, dist, route, place),
        head < order.len(),
        to < grid.size(),
        !seen[to as int],
        grid.is_open(to as int),
        grid.adjacent(order[head] as int, to as int),
    ensures
        ({
            let way = route[order[head] as int].push(to);
            &&& grid.joins(way, start, to as int)
            &&& foremost(grid, start, way)
            &&& forall|other: Seq<usize>| #[trigger]
                grid.joins(other, start, to as int) ==> way.len() <= other.len()
        }),
{
    lemma_discovery_foremost(grid, start, order, head, seen, parent, dist, route, place, to);
    reveal(chained);
    reveal(queued);
    reveal(routed);
    let current = order[head];
    let level = dist[current as int];
    let way = route[current as int].push(to);
    assert(seen[current as int]);
    lemma_path_append(grid, route[current as int], to);
    assert forall|other: Seq<usize>| #[trigger] grid.joins(other, start, to as int) implies way.len()
        <= other.len() by {
        if other.len() < way.len() {
            assert forall|v: int| 0 <= v < grid.size() && #[trigger] seen[v] && dist[v]
                < level implies settled(grid, seen, dist, v) by {
                lemma_nearer_settled(grid, order, head, seen, dist, v);
            }
            lemma_path_within(grid, start, seen, dist, level, other, other.len() - 1);
        }
    }
}

/// Where every seen cell is settled, no path leads from the start to a cell
/// that has not been seen.
pub proof fn lemma_exhausted(
    grid: Grid,
    start: int,
    order: Seq<usize>,
    seen: Seq<bool>,
    parent: Seq<Option<usize>>,
    dist: Seq<int>,
    to: int,
)
    requires
        chained(grid, start, seen, parent, dist),
        queued(grid, order, order.len() as int, seen, dist),
        !seen[to],
    ensures
        !grid.connected(start, to),
{
    assert forall|other: Seq<usize>| #[trigger] grid.joins(other, start, to) implies false by {
        assert forall|v: int| 0 <= v < grid.size() && #[trigger] seen[v] && dist[v]
            < other.len() implies settled(grid, seen, dist, v) by {
            lemma_nearer_settled(grid, order, order.len() as int, seen, dist, v);
        }
        assert(seen[start] && dist[start] == 0) by {
            reveal(chained);
        }
        lemma_path_within(grid, start, seen, dist, other.len() as int, other, other.len() - 1);
    }
}

/// The search goes on from the cell at `head` to the next.
pub proof fn lemma_reared_advance(
    grid: Grid,
    start: int,
    head: int,
    seen: Seq<bool>,
    parent: Seq<Option<usize>>,
    place: Seq<int>,
    children: Seq<usize>,
)
    requires
        reared(grid, start, head, seen, parent, place, children),
    ensures
        reared(grid, start, head + 1, seen, parent, place, Seq::empty()),
{
    reveal(reared);
}

/// What a route is: the path from the start along the parents.
pub proof fn lemma_route(
    grid: Grid,
    start: int,
    seen: Seq<bool>,
    parent: Seq<Option<usize>>,
    dist: Seq<int>,
    route: Seq<Seq<usize>>,
    at: usize,
)
    requires
        chained(grid, start, seen, parent, dist),
        threaded(grid, start, seen, parent, route),
        at < grid.size(),
        seen[at as int],
    ensures
        parent.len() == grid.size(),
        route.len() == grid.size(),
        route[at as int].len() > 0,
        route[at as int].last() == at,
        at == start ==> route[at as int] == seq![at],
        at != start ==> parent[at as int] is Some,
        at != start ==> parent[at as int]->Some_0 < grid.size(),
        at != start ==> seen[parent[at as int]->Some_0 as int],
        at != start ==> 0 <= dist[parent[at as int]->Some_0 as int] < dist[at as int],
        at != start ==> route[at as int].drop_last() == route[parent[at as int]->Some_0 as int],
{
    reveal(chained);
    reveal(threaded);
    if at != start {
        let from = parent[at as int]->Some_0;
        assert(seen[from as int]);
        assert(route[at as int] == route[from as int].push(at));
        assert(route[at as int].drop_last() =~= route[from as int]);
    }
}

} // verus!
