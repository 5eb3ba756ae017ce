//! The turns of a path, and the order of paths by their turns.
//!
//! A step of a path goes up, down, left or right; the directions rank in
//! this order. Of two paths from one cell that part somewhere, the one comes
//! first whose step at the parting ranks lower.

use crate::grid::{lemma_step_inside, Direction, Grid};
use vstd::prelude::*;

verus! {

impl Direction {
    /// The rank of the direction: up, down, left, right.
    pub open spec fn rank(self) -> int {
        match self {
            Direction::Up => 0,
            Direction::Down => 1,
            Direction::Left => 2,
            Direction::Right => 3,
        }
    }
}

/// `s` and `t` agree before position `at`, where `s` has the lower entry.
pub open spec fn parts_at(s: Seq<int>, t: Seq<int>, at: int) -> bool {
    &&& 0 <= at < s.len()
    &&& at < t.len()
    &&& s[at] < t[at]
    &&& forall|j: int| 0 <= j < at ==> s[j] == t[j]
}

/// `s` comes before `t`: where the two first differ, `s` has the lower entry.
pub open spec fn precedes(s: Seq<int>, t: Seq<int>) -> bool {
    exists|at: int| parts_at(s, t, at)
}

/// `s` is `t` or comes before it.
pub open spec fn not_after(s: Seq<int>, t: Seq<int>) -> bool {
    s == t || precedes(s, t)
}

impl Grid {
    /// The direction in which the neighbour `to` of `from` lies.
    pub open spec fn heading(self, from: int, to: int) -> Direction {
        if self.can_step(from, Direction::Up) && self.step(from, Direction::Up) == to {
            Direction::Up
        } else if self.can_step(from, Direction::Down) && self.step(from, Direction::Down) == to {
            Direction::Down
        } else if self.can_step(from, Direction::Left) && self.step(from, Direction::Left) == to {
            Direction::Left
        } else {
            Direction::Right
        }
    }

    /// The ranks of the directions of the steps of a path.
    pub open spec fn turns(self, path: Seq<usize>) -> Seq<int> {
        Seq::new(
            (path.len() - 1) as nat,
            |k: int| self.heading(path[k] as int, path[k + 1] as int).rank(),
        )
    }
}

/// What comes before stays before when both go on.
pub proof fn lemma_precedes_push(s: Seq<int>, t: Seq<int>, x: int, y: int)
    requires
        precedes(s, t),
    ensures
        precedes(s.push(x), t.push(y)),
{
    let at = choose|at: int| parts_at(s, t, at);
    assert(parts_at(s.push(x), t.push(y), at));
}

/// Of two sequences that go on from one, the one with the lower entry comes
/// before.
pub proof fn lemma_precedes_last(s: Seq<int>, x: int, y: int)
    requires
        x < y,
    ensures
        precedes(s.push(x), s.push(y)),
{
    assert(parts_at(s.push(x), s.push(y), s.len() as int));
}

/// Coming before is transitive.
pub proof fn lemma_precedes_transitive(a: Seq<int>, b: Seq<int>, c: Seq<int>)
    requires
        precedes(a, b),
        precedes(b, c),
    ensures
        precedes(a, c),
{
    let i = choose|i: int| parts_at(a, b, i);
    let j = choose|j: int| parts_at(b, c, j);
    if i <= j {
        assert(parts_at(a, c, i));
    } else {
        assert(parts_at(a, c, j));
    }
}

/// Of two sequences, not each comes before the other.
pub proof fn lemma_precedes_one_way(s: Seq<int>, t: Seq<int>)
    requires
        precedes(s, t),
    ensures
        !precedes(t, s),
        s != t,
{
    let i = choose|i: int| parts_at(s, t, i);
    if precedes(t, s) {
        let j = choose|j: int| parts_at(t, s, j);
        if i < j {
            assert(t[i] == s[i]);
        } else if j < i {
            assert(s[j] == t[j]);
        }
    }
}

/// The neighbour in a direction lies in that direction, and in no other.
pub proof fn lemma_heading(grid: Grid, from: int, toward: Direction)
    requires
        grid.wf(),
        grid.can_step(from, toward),
    ensures
        grid.heading(from, grid.step(from, toward)) == toward,
{
    let width = grid.width as int;
    let height = grid.height as int;
    if width == 1 {
        assert(from % 1 == 0);
    }
    lemma_step_inside(width, height, from, toward);
}

/// The direction in which a neighbour lies leads to it.
pub proof fn lemma_heading_leads(grid: Grid, from: int, to: int)
    requires
        grid.adjacent(from, to),
    ensures
        grid.can_step(from, grid.heading(from, to)),
        grid.step(from, grid.heading(from, to)) == to,
{
}

/// The turns of a path that goes on by one cell.
pub proof fn lemma_turns_push(grid: Grid, path: Seq<usize>, to: usize)
    requires
        path.len() > 0,
    ensures
        grid.turns(path.push(to)) == grid.turns(path).push(
            grid.heading(path.last() as int, to as int).rank(),
        ),
{
    let longer = path.push(to);
    let left = grid.turns(longer);
    let right = grid.turns(path).push(grid.heading(path.last() as int, to as int).rank());
    assert forall|k: int| 0 <= k < left.len() implies left[k] == right[k] by {
        if k < path.len() - 1 {
            assert(longer[k] == path[k]);
            assert(longer[k + 1] == path[k + 1]);
        } else {
            assert(longer[k] == path.last());
            assert(longer[k + 1] == to);
        }
    }
    assert(left =~= right);
}

/// Two paths from one cell with the same turns are one path.
pub proof fn lemma_turns_tell_path(grid: Grid, p: Seq<usize>, q: Seq<usize>)
    requires
        grid.is_path(p),
        grid.is_path(q),
        p[0] == q[0],
        p.len() == q.len(),
        grid.turns(p) == grid.turns(q),
    ensures
        p == q,
{
    assert forall|k: int| 0 <= k < p.len() implies p[k] == q[k] by {
        lemma_same_so_far(grid, p, q, k);
    }
    assert(p =~= q);
}

/// Two paths from one cell with the same turns agree at each position.
proof fn lemma_same_so_far(grid: Grid, p: Seq<usize>, q: Seq<usize>, k: int)
    requires
        grid.is_path(p),
        grid.is_path(q),
        p[0] == q[0],
        p.len() == q.len(),
        grid.turns(p) == grid.turns(q),
        0 <= k < p.len(),
    ensures
        p[k] == q[k],
    decreases k,
{
    if k > 0 {
        lemma_same_so_far(grid, p, q, k - 1);
        assert(grid.adjacent(p[k - 1] as int, p[k - 1 + 1] as int));
        assert(grid.adjacent(q[k - 1] as int, q[k - 1 + 1] as int));
        lemma_heading_leads(grid, p[k - 1] as int, p[k] as int);
        lemma_heading_leads(grid, q[k - 1] as int, q[k] as int);
        assert(grid.turns(p)[k - 1] == grid.heading(p[k - 1] as int, p[k - 1 + 1] as int).rank());
        assert(grid.turns(q)[k - 1] == grid.heading(q[k - 1] as int, q[k - 1 + 1] as int).rank());
        assert(grid.is_open(p[k] as int));
        assert(grid.is_open(q[k] as int));
    }
}

} // verus!
