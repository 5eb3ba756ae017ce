//! The compressed graph of a maze that is one straight corridor.

use crate::graph::{Edge, GraphModel};
use crate::grid::{
    lemma_index_row_col,
    lemma_positive_width,
    lemma_row_col,
    lemma_step_inside,
    Direction,
    Grid,
};
use crate::opt_maze::{
    compressed,
    expanded,
    explored,
    halts,
    junction,
    node_at,
    outset,
    run,
    survey_from,
    Run,
    Survey,
};
use vstd::prelude::*;

verus! {

/// The open cells of the grid are those of one column, and the grid fits the
/// machine.
pub open spec fn single_column(grid: Grid, column: int) -> bool {
    &&& grid.wf()
    &&& 0 <= column < grid.width <= u32::MAX
    &&& grid.height <= u32::MAX
    &&& grid.size() <= usize::MAX
    &&& forall|at: int| 0 <= at < grid.size() ==> (#[trigger] grid.open[at] <==> grid.col(at) == column)
}

/// The index of the cell of the column in the last row.
pub open spec fn foot(grid: Grid, column: int) -> int {
    (grid.height - 1) * grid.width + column
}

/// Around a cell of the open column: no cell to its left or right is open,
/// and the cells above and below it are.
proof fn lemma_column_cell(grid: Grid, column: int, at: int)
    requires
        single_column(grid, column),
        0 <= at < grid.size(),
        grid.col(at) == column,
    ensures
        grid.is_open(at),
        !grid.open_toward(at, Direction::Left),
        !grid.open_toward(at, Direction::Right),
        !junction(grid, at, Direction::Down),
        !junction(grid, at, Direction::Up),
        grid.can_step(at, Direction::Up) ==> grid.is_open(grid.step(at, Direction::Up)),
        grid.can_step(at, Direction::Down) ==> grid.is_open(grid.step(at, Direction::Down)),
{
    let width = grid.width as int;
    let height = grid.height as int;
    if grid.can_step(at, Direction::Left) {
        lemma_step_inside(width, height, at, Direction::Left);
    }
    if grid.can_step(at, Direction::Right) {
        lemma_step_inside(width, height, at, Direction::Right);
    }
    if grid.can_step(at, Direction::Up) {
        lemma_step_inside(width, height, at, Direction::Up);
    }
    if grid.can_step(at, Direction::Down) {
        lemma_step_inside(width, height, at, Direction::Down);
    }
}

/// The cell of the column in the last row, and the cells below which the
/// grid goes on.
proof fn lemma_foot(grid: Grid, column: int, at: int)
    requires
        single_column(grid, column),
        grid.height >= 1,
        0 <= at < grid.size(),
        grid.col(at) == column,
    ensures
        0 <= foot(grid, column) < grid.size(),
        grid.col(foot(grid, column)) == column,
        grid.row(foot(grid, column)) == grid.height - 1,
        !grid.can_step(foot(grid, column), Direction::Down),
        !grid.can_step(at, Direction::Down) ==> at == foot(grid, column),
        0 <= grid.row(at) < grid.height,
{
    let width = grid.width as int;
    let height = grid.height as int;
    lemma_index_row_col(width, column, height - 1);
    lemma_row_col(width, height, at);
    assert((height - 1) * width + column < width * height && (height - 1) * width >= 0) by (nonlinear_arith)
        requires
            0 <= column < width,
            height >= 1,
    ;
    assert((height - 1) * width + column + width >= width * height) by (nonlinear_arith)
        requires
            0 <= column < width,
            height >= 1,
    ;
    let row = at / width;
    if !grid.can_step(at, Direction::Down) {
        assert(row == height - 1) by (nonlinear_arith)
            requires
                at == row * width + column,
                at + width >= width * height,
                0 <= column < width,
                0 <= row < height,
        ;
    }
}

/// A walk down the open column, none of whose lower cells has been seen,
/// halts in the last row, and has then seen the column from where it set
/// out.
proof fn lemma_column_run(grid: Grid, column: int, seen: Seq<bool>, at: int, steps: int)
    requires
        single_column(grid, column),
        seen.len() == grid.size(),
        0 <= at < grid.size(),
        grid.col(at) == column,
        forall|i: int|
            0 <= i < grid.size() && grid.col(i) == column && grid.row(i) > grid.row(at) ==> !seen[i],
    ensures
        ({
            let walk = run(grid, seen, at, Direction::Down, steps);
            &&& walk.end == foot(grid, column)
            &&& walk.steps == steps + grid.height - 1 - grid.row(at)
            &&& walk.seen.len() == seen.len()
            &&& forall|i: int| 0 <= i < seen.len() && seen[i] ==> #[trigger] walk.seen[i]
            &&& forall|i: int|
                0 <= i < grid.size() && grid.col(i) == column && grid.row(i) >= grid.row(at)
                    ==> #[trigger] walk.seen[i]
        }),
    decreases grid.size() - at,
{
    let width = grid.width as int;
    let height = grid.height as int;
    let marked = seen.update(at, true);
    lemma_positive_width(width, height);
    lemma_column_cell(grid, column, at);
    lemma_foot(grid, column, at);
    lemma_row_col(width, height, at);
    let walk = run(grid, seen, at, Direction::Down, steps);
    if grid.can_step(at, Direction::Down) {
        let next = grid.step(at, Direction::Down);
        lemma_step_inside(width, height, at, Direction::Down);
        assert(!seen[next]);
        assert(grid.free_toward(marked, at, Direction::Down));
        assert(!halts(grid, marked, at, Direction::Down));
        assert forall|i: int|
            0 <= i < grid.size() && grid.col(i) == column && grid.row(i) > grid.row(next) implies !marked[i] by {
            assert(!seen[i]);
        }
        lemma_column_run(grid, column, marked, next, steps + 1);
        assert forall|i: int| 0 <= i < seen.len() && seen[i] implies #[trigger] walk.seen[i] by {
            assert(marked[i]);
        }
        assert forall|i: int|
            0 <= i < grid.size() && grid.col(i) == column && grid.row(i) >= grid.row(
                at,
            ) implies #[trigger] walk.seen[i] by {
            if grid.row(i) == grid.row(at) {
                lemma_row_col(width, height, i);
                assert(i == at);
                assert(marked[i]);
            }
        }
    } else {
        assert(halts(grid, marked, at, Direction::Down));
        assert(walk == Run { end: at, steps, seen: marked });
        assert forall|i: int|
            0 <= i < grid.size() && grid.col(i) == column && grid.row(i) >= grid.row(
                at,
            ) implies #[trigger] walk.seen[i] by {
            lemma_row_col(width, height, i);
            assert(i == at);
        }
    }
}

/// The compressed graph of a maze that is one straight open corridor from
/// the first row to the last, at least two cells long, has two nodes, the
/// entrance and the exit, and one edge, from the entrance to the exit, whose
/// weight is the length of the corridor less one.
pub proof fn lemma_straight_corridor(grid: Grid, column: int)
    requires
        single_column(grid, column),
        grid.height >= 2,
    ensures
        grid.entrance(column),
        compressed(grid, column).nodes == seq![
            node_at(grid, column),
            node_at(grid, foot(grid, column)),
        ],
        compressed(grid, column).links == seq![
            seq![Edge { weight: (grid.height - 1) as u32, from: 0, to: 1 }],
            Seq::<Edge>::empty(),
        ],
{
    let width = grid.width as int;
    let height = grid.height as int;
    let size = grid.size();
    let last = foot(grid, column);
    assert(size == width * height);
    assert(2 * width <= width * height) by (nonlinear_arith)
        requires
            height >= 2,
            width >= 0,
    ;
    lemma_index_row_col(width, column, 0);
    assert(grid.col(column) == column && grid.row(column) == 0);
    lemma_column_cell(grid, column, column);
    lemma_foot(grid, column, column);
    assert forall|i: int| 0 <= i < column implies !grid.is_open(i) by {
        lemma_index_row_col(width, i, 0);
    }
    assert(grid.entrance(column));

    // The walks from the entrance.
    let first = outset(grid, column);
    let entrance = node_at(grid, column);
    assert(entrance.vec_coord == column);
    assert(first.pending.last() == 0usize);
    let taken = Survey { graph: first.graph, seen: first.seen, pending: first.pending.drop_last() };
    assert(taken.pending =~= Seq::<usize>::empty());
    assert(taken.graph.nodes[0] == entrance);
    assert(explored(grid, taken, 0, Direction::Left) == taken);
    assert(explored(grid, taken, 0, Direction::Right) == taken);
    assert(!grid.can_step(column, Direction::Up));
    assert(explored(grid, taken, 0, Direction::Up) == taken);
    let below = grid.step(column, Direction::Down);
    assert(grid.can_step(column, Direction::Down));
    lemma_step_inside(width, height, column, Direction::Down);
    assert(!first.seen[below]);
    assert(grid.free_toward(taken.seen, column, Direction::Down));
    assert forall|i: int|
        0 <= i < size && grid.col(i) == column && grid.row(i) > grid.row(below) implies !first.seen[i] by {}
    lemma_column_run(grid, column, first.seen, below, 1);
    let walk = run(grid, first.seen, below, Direction::Down, 1);
    assert(walk.end == last);
    assert(walk.steps == height - 1);
    let exit = node_at(grid, last);
    let edge = Edge { weight: (height - 1) as u32, from: 0, to: 1 };
    let grown = first.graph.with_node(exit);
    assert(!grown.linked(0, 1)) by {
        if grown.linked(0, 1) {
            let k = choose|k: int| #[trigger] grown.is_slot(0, 1, k);
            assert(grown.is_slot(0, 1, k));
        }
    }
    let linked = grown.with_edge(0, 1, (height - 1) as u32);
    assert(linked.nodes =~= seq![entrance, exit]);
    assert(linked.links[0] =~= seq![edge]);
    assert(linked.links =~= seq![seq![edge], Seq::<Edge>::empty()]);
    let second = Survey { graph: linked, seen: walk.seen, pending: taken.pending.push(1usize) };
    assert(explored(grid, taken, 0, Direction::Down) == second);
    assert(expanded(grid, first) == second);

    // The walks from the exit.
    assert(second.pending.last() == 1usize);
    let left = Survey { graph: linked, seen: walk.seen, pending: second.pending.drop_last() };
    assert(left.pending =~= Seq::<usize>::empty());
    assert(linked.nodes[1] == exit);
    assert(exit.vec_coord == last);
    lemma_column_cell(grid, column, last);
    assert(explored(grid, left, 1, Direction::Left) == left);
    assert(explored(grid, left, 1, Direction::Right) == left);
    assert(grid.can_step(last, Direction::Up)) by {
        assert(last >= width) by (nonlinear_arith)
            requires
                last == (height - 1) * width + column,
                height >= 2,
                column >= 0,
                width >= 0,
        ;
    }
    let above = grid.step(last, Direction::Up);
    lemma_step_inside(width, height, last, Direction::Up);
    assert(walk.seen[above]) by {
        if grid.row(above) >= grid.row(below) {
        } else {
            lemma_row_col(width, height, above);
            assert(above == column);
            assert(first.seen[column]);
        }
    }
    assert(!grid.free_toward(left.seen, last, Direction::Up));
    assert(explored(grid, left, 1, Direction::Up) == left);
    assert(explored(grid, left, 1, Direction::Down) == left);
    assert(expanded(grid, second) == left);

    // Two nodes are taken from the stack, and it is empty.
    assert(size >= 2);
    assert(survey_from(grid, first, size as nat) == survey_from(
        grid,
        second,
        (size - 1) as nat,
    ));
    assert(survey_from(grid, second, (size - 1) as nat) == survey_from(
        grid,
        left,
        (size - 2) as nat,
    ));
    assert(survey_from(grid, left, (size - 2) as nat) == linked);
}

} // verus!
