//! The dense maze: one record per pixel, and the entrance and the exit.

use crate::grid::{cell_count, fits, grid_of, neighbor, Direction, Grid};
use crate::pixel::is_path;
use crate::search::{
    chained,
    foremost,
    fresh_neighbors,
    fresh_toward,
    lemma_exhausted,
    lemma_found,
    lemma_fresh,
    lemma_reared_advance,
    lemma_route,
    lemma_route_step,
    lemma_search_advance,
    lemma_search_begins,
    lemma_search_facts,
    lemma_search_step,
    lemma_settles,
    queued,
    reared,
    routed,
    threaded,
};
use crate::traversal::{below, lemma_distinct_below};
use std::collections::VecDeque;
use vstd::prelude::*;

verus! {

/// A cell of the maze: whether it is a wall, its column `x`, its row `y`, and
/// its linear index `vec_coord`. The cell in the top left corner is `(0, 0)`.
#[derive(Clone, Copy, Debug)]
pub struct Cell {
    pub is_wall: bool,
    pub x: u32,
    pub y: u32,
    pub vec_coord: usize,
}

impl Cell {
    /// A wall at the origin.
    pub fn new() -> (cell: Cell)
        ensures
            cell == (Cell { is_wall: true, x: 0, y: 0, vec_coord: 0 }),
    {
        Cell { is_wall: true, x: 0, y: 0, vec_coord: 0 }
    }

    /// The cell with the given fields.
    pub fn from(is_wall: bool, x: u32, y: u32, vec_coord: usize) -> (cell: Cell)
        ensures
            cell == (Cell { is_wall, x, y, vec_coord }),
    {
        Cell { is_wall, x, y, vec_coord }
    }
}

impl PartialEq for Cell {
    fn eq(&self, other: &Self) -> (same: bool) {
        self.x == other.x && self.y == other.y
    }
}

impl Eq for Cell {

}

impl vstd::std_specs::cmp::PartialEqSpecImpl for Cell {
    open spec fn obeys_eq_spec() -> bool {
        true
    }

    open spec fn eq_spec(&self, other: &Self) -> bool {
        self.x == other.x && self.y == other.y
    }
}

/// Why a maze could not be built or solved.
#[derive(Clone, Copy, Debug, PartialEq, Eq, Structural)]
pub enum MazeError {
    /// The buffer does not hold one cell per pixel of the stated shape.
    BufferSizeMismatch,
    /// The first row holds no open cell.
    NoEntrance,
    /// The last row holds no open cell.
    NoExit,
    /// No path leads from the entrance to the exit.
    NoPath,
}

/// The record of the cell `at` of a grid.
pub open spec fn cell_of(grid: Grid, at: int) -> Cell {
    Cell {
        is_wall: !grid.open[at],
        x: grid.col(at) as u32,
        y: grid.row(at) as u32,
        vec_coord: at as usize,
    }
}

/// The linear indices of a sequence of cells.
pub open spec fn indices(cells: Seq<Cell>) -> Seq<usize> {
    cells.map_values(|cell: Cell| cell.vec_coord)
}

/// A maze: its shape, the records of its cells row by row, and the records
/// of the entrance and of the exit.
pub struct Maze {
    pub width: u32,
    pub height: u32,
    pub cells: Vec<Cell>,
    pub start: Cell,
    pub end: Cell,
}

impl View for Maze {
    type V = Grid;

    open spec fn view(&self) -> Grid {
        Grid {
            width: self.width as nat,
            height: self.height as nat,
            open: Seq::new(self.cells@.len(), |i: int| !self.cells@[i].is_wall),
        }
    }
}

impl Maze {
    /// The invariant of a maze: one record per cell, each with its own
    /// column, row and index; `start` is the record of the entrance and `end`
    /// that of the exit.
    pub open spec fn wf(&self) -> bool {
        &&& self@.wf()
        &&& forall|i: int| 0 <= i < self.cells@.len() ==> #[trigger] self.cells@[i] == cell_of(self@, i)
        &&& self@.entrance(self.start.vec_coord as int)
        &&& self@.exit(self.end.vec_coord as int)
        &&& self.start == self.cells@[self.start.vec_coord as int]
        &&& self.end == self.cells@[self.end.vec_coord as int]
    }

    /// Each cell of `path` is the record that the maze holds at its index.
    pub open spec fn holds(&self, path: Seq<Cell>) -> bool {
        forall|k: int|
            0 <= k < path.len() ==> (#[trigger] path[k]).vec_coord < self.cells@.len() && path[k]
                == self.cells@[path[k].vec_coord as int]
    }

    /// `path` is the foremost of the shortest paths from the entrance to the
    /// exit: its cells are records of the maze, open, each the neighbour of
    /// the one before it, the entrance first and the exit last; no path
    /// from the entrance to the exit has fewer cells; and where another
    /// path with as many cells parts from it, `path` goes up rather than
    /// down, down rather than left, left rather than right.
    pub open spec fn solved_by(&self, path: Seq<Cell>) -> bool {
        &&& self.holds(path)
        &&& self@.joins(indices(path), self.start.vec_coord as int, self.end.vec_coord as int)
        &&& forall|other: Seq<usize>| #[trigger]
            self@.joins(other, self.start.vec_coord as int, self.end.vec_coord as int)
                ==> path.len() <= other.len()
        &&& foremost(self@, self.start.vec_coord as int, indices(path))
    }

    /// Whether some path leads from the entrance to the exit.
    pub open spec fn solvable(&self) -> bool {
        self@.connected(self.start.vec_coord as int, self.end.vec_coord as int)
    }

    /// The first cell from `low` up to, and not including, `high` that is no
    /// wall.
    fn first_open(cells: &Vec<Cell>, low: usize, high: usize) -> (found: Option<usize>)
        requires
            low <= high <= cells.len(),
        ensures
            match found {
                Some(at) => low <= at < high && !cells[at as int].is_wall && forall|i: int|
                    low <= i < at ==> cells[i].is_wall,
                None => forall|i: int| low <= i < high ==> cells[i].is_wall,
            },
    {
        let mut at = low;
        while at < high
            invariant
                low <= at <= high <= cells.len(),
                forall|i: int| low <= i < at ==> cells[i].is_wall,
            decreases high - at,
        {
            if !cells[at].is_wall {
                return Some(at);
            }
            at += 1;
        }
        None
    }

    /// Reads a maze from a pixel buffer of `width` columns and `height` rows.
    /// The entrance is the first open cell of the first row, the exit the
    /// first open cell of the last row. `BufferSizeMismatch` if the buffer
    /// does not hold one cell per pixel; else `NoEntrance` if the first row
    /// holds no open cell; else `NoExit` if the last row holds none.
    pub fn from(image_buff: &Vec<u8>, width: u32, height: u32, is_greyscale: bool) -> (made: Result<
        Maze,
        MazeError,
    >)
        ensures
            match made {
                Ok(maze) => {
                    &&& fits(image_buff.len() as nat, width as nat, height as nat, is_greyscale)
                    &&& maze.wf()
                    &&& maze.width == width
                    &&& maze.height == height
                    &&& maze@ == grid_of(image_buff@, width as nat, height as nat, is_greyscale)
                },
                Err(MazeError::BufferSizeMismatch) => !fits(
                    image_buff.len() as nat,
                    width as nat,
                    height as nat,
                    is_greyscale,
                ),
                Err(MazeError::NoEntrance) => {
                    &&& fits(image_buff.len() as nat, width as nat, height as nat, is_greyscale)
                    &&& grid_of(
                        image_buff@,
                        width as nat,
                        height as nat,
                        is_greyscale,
                    ).no_entrance()
                },
                Err(MazeError::NoExit) => {
                    &&& fits(image_buff.len() as nat, width as nat, height as nat, is_greyscale)
                    &&& !grid_of(
                        image_buff@,
                        width as nat,
                        height as nat,
                        is_greyscale,
                    ).no_entrance()
                    &&& grid_of(image_buff@, width as nat, height as nat, is_greyscale).no_exit()
                },
                Err(MazeError::NoPath) => false,
            },
    {
        let count = match cell_count(image_buff.len(), width, height, is_greyscale) {
            Some(count) => count,
            None => {
                return Err(MazeError::BufferSizeMismatch);
            },
        };
        let ghost grid = grid_of(image_buff@, width as nat, height as nat, is_greyscale);
        if width == 0 || height == 0 {
            return Err(MazeError::NoEntrance);
        }
        let columns = width as usize;
        assert(columns <= count) by (nonlinear_arith)
            requires
                count == width * height,
                columns == width,
                height >= 1,
        ;
        let mut cells: Vec<Cell> = Vec::new();
        let mut at: usize = 0;
        while at < count
            invariant
                at <= count,
                count == width * height,
                columns == width,
                columns > 0,
                fits(image_buff.len() as nat, width as nat, height as nat, is_greyscale),
                grid == grid_of(image_buff@, width as nat, height as nat, is_greyscale),
                cells.len() == at,
                forall|i: int| 0 <= i < at ==> #[trigger] cells[i] == cell_of(grid, i),
            decreases count - at,
        {
            proof {
                crate::grid::lemma_row_col(width as int, height as int, at as int);
            }
            let open = is_path(image_buff, at, is_greyscale);
            let x = (at % columns) as u32;
            let y = (at / columns) as u32;
            cells.push(Cell::from(!open, x, y, at));
            at += 1;
        }
        assert(grid.open.len() == count);
        let start = match Self::first_open(&cells, 0, columns) {
            Some(at) => cells[at],
            None => {
                assert forall|i: int| 0 <= i < columns implies !grid.is_open(i) by {
                    assert(cells[i] == cell_of(grid, i));
                }
                return Err(MazeError::NoEntrance);
            },
        };
        let end = match Self::first_open(&cells, count - columns, count) {
            Some(at) => cells[at],
            None => {
                assert(cells[start.vec_coord as int] == cell_of(grid, start.vec_coord as int));
                assert(grid.is_open(start.vec_coord as int));
                assert forall|i: int| count - columns <= i < count implies !grid.is_open(i) by {
                    assert(cells[i] == cell_of(grid, i));
                }
                return Err(MazeError::NoExit);
            },
        };
        let maze = Maze { width, height, cells, start, end };
        proof {
            assert forall|i: int| 0 <= i < count implies maze@.open[i] == grid.open[i] by {
                assert(maze.cells[i] == cell_of(grid, i));
            }
            assert(maze@.open =~= grid.open);
            assert(maze@ == grid);
            assert(maze.start == maze.cells[maze.start.vec_coord as int]);
            assert(maze.end == maze.cells[maze.end.vec_coord as int]);
            assert forall|i: int| 0 <= i < maze.start.vec_coord implies !grid.is_open(i) by {
                assert(maze.cells[i] == cell_of(grid, i));
            }
            assert forall|i: int| count - columns <= i < maze.end.vec_coord implies !grid.is_open(
                i,
            ) by {
                assert(maze.cells[i] == cell_of(grid, i));
            }
        }
        Ok(maze)
    }

    /// The linear index of the cell in column `x` of row `y`. For a column
    /// and a row of the maze it is the index of a cell, whose column and row
    /// they are.
    pub fn coords_to_vec_location(&self, x: u32, y: u32) -> (at: usize)
        requires
            y * self.width + x <= usize::MAX,
        ensures
            at == y * self.width + x,
            self@.wf() && x < self.width && y < self.height ==> {
                &&& at < self.cells.len()
                &&& self@.col(at as int) == x
                &&& self@.row(at as int) == y
            },
    {
        proof {
            assert(y * self.width >= 0) by (nonlinear_arith)
                requires
                    0 <= y,
                    0 <= self.width,
            ;
            if self@.wf() && x < self.width && y < self.height {
                crate::grid::lemma_cell_inside(
                    self.width as int,
                    self.height as int,
                    x as int,
                    y as int,
                );
                crate::grid::lemma_index_row_col(self.width as int, x as int, y as int);
            }
        }
        (y as usize) * (self.width as usize) + (x as usize)
    }

    /// Adds the neighbour of `at` in the given direction to `neighbors` if it
    /// is open and not visited.
    fn look(&self, at: usize, toward: Direction, visited_vec: &Vec<bool>, neighbors: &mut Vec<Cell>)
        requires
            self.wf(),
            visited_vec.len() == self.cells.len(),
            at < self.cells.len(),
        ensures
            final(neighbors)@ == old(neighbors)@ + fresh_toward(
                self@,
                visited_vec@,
                at as int,
                toward,
            ).map_values(|i: usize| self.cells@[i as int]),
    {
        let ghost before = neighbors@;
        let ghost fresh = fresh_toward(self@, visited_vec@, at as int, toward);
        proof {
            assert(self.width > 0) by (nonlinear_arith)
                requires
                    self.cells.len() == self.width * self.height,
                    self.cells.len() > 0,
            ;
        }
        match neighbor(at, toward, self.width as usize, self.cells.len()) {
            Some(next) => {
                proof {
                    crate::grid::lemma_step_inside(
                        self.width as int,
                        self.height as int,
                        at as int,
                        toward,
                    );
                }
                if !self.cells[next].is_wall && !visited_vec[next] {
                    neighbors.push(self.cells[next]);
                    assert(fresh =~= seq![next]);
                    assert(neighbors@ =~= before + fresh.map_values(
                        |i: usize| self.cells@[i as int],
                    ));
                } else {
                    assert(fresh =~= Seq::<usize>::empty());
                    assert(neighbors@ =~= before + fresh.map_values(
                        |i: usize| self.cells@[i as int],
                    ));
                }
            },
            None => {
                assert(fresh =~= Seq::<usize>::empty());
                assert(neighbors@ =~= before + fresh.map_values(|i: usize| self.cells@[i as int]));
            },
        }
    }

    /// The neighbours of the cell in the column and row of `cell` that are
    /// open and not visited, in the order above, below, left, right.
    pub fn get_neighbors(&self, cell: &Cell, visited_vec: &Vec<bool>) -> (neighbors: Vec<Cell>)
        requires
            self.wf(),
            visited_vec.len() == self.cells.len(),
            cell.x < self.width,
            cell.y < self.height,
        ensures
            indices(neighbors@) == fresh_neighbors(
                self@,
                visited_vec@,
                cell.y * self.width + cell.x,
            ),
            self.holds(neighbors@),
    {
        proof {
            crate::grid::lemma_cell_inside(
                self.width as int,
                self.height as int,
                cell.x as int,
                cell.y as int,
            );
        }
        let at = self.coords_to_vec_location(cell.x, cell.y);
        let mut neighbors: Vec<Cell> = Vec::new();
        self.look(at, Direction::Up, visited_vec, &mut neighbors);
        self.look(at, Direction::Down, visited_vec, &mut neighbors);
        self.look(at, Direction::Left, visited_vec, &mut neighbors);
        self.look(at, Direction::Right, visited_vec, &mut neighbors);
        proof {
            let fresh = fresh_neighbors(self@, visited_vec@, at as int);
            let found = fresh.map_values(|i: usize| self.cells@[i as int]);
            assert(neighbors@ =~= found);
            assert forall|k: int| 0 <= k < fresh.len() implies (#[trigger] fresh[k])
                < self.cells.len() by {
                lemma_fresh(self@, visited_vec@, at as int, k);
            }
            assert(indices(neighbors@) =~= fresh);
        }
        neighbors
    }

    /// The path from the entrance to `from` along the parents of the search.
    fn backtrace(
        &self,
        parent: &Vec<Option<usize>>,
        from: usize,
        Ghost(seen): Ghost<Seq<bool>>,
        Ghost(dist): Ghost<Seq<int>>,
        Ghost(route): Ghost<Seq<Seq<usize>>>,
    ) -> (path: VecDeque<Cell>)
        requires
            self.wf(),
            chained(self@, self.start.vec_coord as int, seen, parent@, dist),
            threaded(self@, self.start.vec_coord as int, seen, parent@, route),
            from < self.cells.len(),
            seen[from as int],
        ensures
            indices(path@) == route[from as int],
            self.holds(path@),
    {
        let ghost grid = self@;
        let start = self.start.vec_coord;
        let mut path: VecDeque<Cell> = VecDeque::new();
        let mut at = from;
        path.push_front(self.cells[at]);
        let ghost mut way: Seq<usize> = seq![from];
        proof {
            assert(self.cells@[from as int] == cell_of(grid, from as int));
            assert(indices(path@) =~= way);
            lemma_route(grid, start as int, seen, parent@, dist, route, from);
            assert(route[from as int].drop_last() + way =~= route[from as int]);
        }
        while at != start
            invariant
                self.wf(),
                grid == self@,
                start == self.start.vec_coord,
                chained(grid, start as int, seen, parent@, dist),
                threaded(grid, start as int, seen, parent@, route),
                at < self.cells.len(),
                seen[at as int],
                way == indices(path@),
                way[0] == at,
                route[at as int].drop_last() + way == route[from as int],
                self.holds(path@),
            decreases dist[at as int],
        {
            let ghost before = path@;
            proof {
                lemma_route(grid, start as int, seen, parent@, dist, route, at);
            }
            let toward = parent[at].unwrap();
            proof {
                lemma_route(grid, start as int, seen, parent@, dist, route, toward);
                assert(route[toward as int].drop_last() + (seq![toward] + way) =~= route[toward as int]
                    + way);
                way = seq![toward] + way;
            }
            at = toward;
            path.push_front(self.cells[at]);
            proof {
                assert(self.cells@[at as int] == cell_of(grid, at as int));
                assert(path@[0] == self.cells@[at as int]);
                assert forall|k: int| 0 < k < path.len() implies path@[k] == before[k - 1] by {}
                assert(indices(path@) =~= way);
                assert forall|k: int| 0 <= k < path.len() implies (#[trigger] path@[k]).vec_coord
                    < self.cells@.len() && path@[k] == self.cells@[path@[k].vec_coord as int] by {
                    if k > 0 {
                        assert(path@[k] == before[k - 1]);
                    }
                }
            }
        }
        proof {
            lemma_route(grid, start as int, seen, parent@, dist, route, start);
            assert(route[start as int].drop_last() =~= Seq::<usize>::empty());
            assert(Seq::<usize>::empty() + way =~= way);
        }
        path
    }

    /// The foremost of the shortest paths from the entrance to the exit,
    /// found breadth first: the cells of the path in order, the entrance
    /// first. `NoPath` if the exit cannot be reached from the entrance.
    pub fn bfs(&self) -> (found: Result<VecDeque<Cell>, MazeError>)
        requires
            self.wf(),
        ensures
            match found {
                Ok(path) => self.solved_by(path@),
                Err(error) => error == MazeError::NoPath && !self.solvable(),
            },
    {
        let ghost grid = self@;
        let count = self.cells.len();
        let start = self.start.vec_coord;
        let end = self.end.vec_coord;
        if start == end {
            let mut path: VecDeque<Cell> = VecDeque::new();
            path.push_back(self.start);
            proof {
                let way = indices(path@);
                assert(way =~= seq![start]);
                assert forall|other: Seq<usize>| #[trigger]
                    grid.joins(other, start as int, way.last() as int) && other.len()
                        == way.len() implies crate::turns::not_after(
                    grid.turns(way),
                    grid.turns(other),
                ) by {
                    assert(grid.turns(way) =~= grid.turns(other));
                }
            }
            return Ok(path);
        }
        let mut seen: Vec<bool> = vec![false; count];
        let mut parent: Vec<Option<usize>> = vec![None; count];
        let mut order: Vec<usize> = Vec::new();
        order.push(start);
        seen.set(start, true);
        let ghost mut dist: Seq<int> = Seq::new(count as nat, |i: int| 0int);
        let ghost mut route: Seq<Seq<usize>> = Seq::new(count as nat, |i: int| seq![start]);
        let ghost mut place: Seq<int> = Seq::new(count as nat, |i: int| 0int);
        let mut head: usize = 0;
        proof {
            lemma_search_begins(grid, start);
            assert(order@ =~= seq![start]);
            assert(seen@ =~= Seq::new(count as nat, |i: int| false).update(start as int, true));
            assert(parent@ =~= Seq::new(count as nat, |i: int| None::<usize>));
        }
        while head < order.len()
            invariant
                self.wf(),
                grid == self@,
                count == self.cells.len(),
                start == self.start.vec_coord,
                end == self.end.vec_coord,
                start != end,
                chained(grid, start as int, seen@, parent@, dist),
                queued(grid, order@, head as int, seen@, dist),
                threaded(grid, start as int, seen@, parent@, route),
                routed(grid, start as int, order@, seen@, dist, route, place),
                reared(grid, start as int, head as int, seen@, parent@, place, Seq::empty()),
                route.len() == count,
                place.len() == count,
                end < count,
                !seen[end as int],
            decreases count - head,
        {
            proof {
                lemma_search_facts(grid, start as int, order@, head as int, seen@, parent@, dist);
                assert(below(order@, count as nat));
                lemma_distinct_below(order@, count as nat);
            }
            let current = order[head];
            proof {
                assert(self.cells@[current as int] == cell_of(grid, current as int));
                crate::grid::lemma_positive_width(self.width as int, self.height as int);
                crate::grid::lemma_row_col(self.width as int, self.height as int, current as int);
            }
            let neighbors = self.get_neighbors(&self.cells[current], &seen);
            let ghost fresh = indices(neighbors@);
            let ghost seen_before = seen@;
            let ghost level = dist[current as int];
            let mut j: usize = 0;
            proof {
                assert(fresh.take(0) =~= Seq::<usize>::empty());
            }
            while j < neighbors.len()
                invariant
                    self.wf(),
                    grid == self@,
                    count == self.cells.len(),
                    start == self.start.vec_coord,
                    end == self.end.vec_coord,
                    start != end,
                    chained(grid, start as int, seen@, parent@, dist),
                    queued(grid, order@, head as int, seen@, dist),
                    threaded(grid, start as int, seen@, parent@, route),
                    routed(grid, start as int, order@, seen@, dist, route, place),
                    reared(
                        grid,
                        start as int,
                        head as int,
                        seen@,
                        parent@,
                        place,
                        fresh.take(j as int),
                    ),
                    end < count,
                    !seen[end as int],
                    head < order.len(),
                    order@[head as int] == current,
                    current < count,
                    seen[current as int],
                    level == dist[current as int],
                    seen_before.len() == count,
                    seen.len() == count,
                    parent.len() == count,
                    dist.len() == count,
                    route.len() == count,
                    place.len() == count,
                    fresh == indices(neighbors@),
                    fresh == fresh_neighbors(grid, seen_before, current as int),
                    j <= neighbors.len(),
                    forall|v: int| 0 <= v < count && seen_before[v] ==> seen[v],
                    forall|l: int| j <= l < fresh.len() ==> !seen[(#[trigger] fresh[l]) as int],
                    forall|l: int|
                        0 <= l < j ==> seen[(#[trigger] fresh[l]) as int] && dist[fresh[l] as int]
                            == level + 1,
                decreases neighbors.len() - j,
            {
                let next = neighbors[j].vec_coord;
                proof {
                    assert(fresh[j as int] == next);
                    lemma_fresh(grid, seen_before, current as int, j as int);
                    assert(!seen[fresh[j as int] as int]);
                }
                if next == end {
                    let mut path = self.backtrace(
                        &parent,
                        current,
                        Ghost(seen@),
                        Ghost(dist),
                        Ghost(route),
                    );
                    let ghost upto = path@;
                    path.push_back(self.end);
                    proof {
                        lemma_search_facts(
                            grid,
                            start as int,
                            order@,
                            head as int,
                            seen@,
                            parent@,
                            dist,
                        );
                        lemma_found(
                            grid,
                            start as int,
                            order@,
                            head as int,
                            seen@,
                            parent@,
                            dist,
                            route,
                            place,
                            end,
                        );
                        assert(indices(path@) =~= indices(upto).push(end));
                        assert forall|k: int| 0 <= k < path.len() implies (
                        #[trigger] path@[k]).vec_coord < self.cells@.len() && path@[k]
                            == self.cells@[path@[k].vec_coord as int] by {
                            if k < upto.len() {
                                assert(path@[k] == upto[k]);
                            }
                        }
                    }
                    return Ok(path);
                }
                proof {
                    lemma_search_step(
                        grid,
                        start as int,
                        order@,
                        head as int,
                        seen@,
                        parent@,
                        dist,
                        next,
                    );
                    lemma_route_step(
                        grid,
                        start as int,
                        order@,
                        head as int,
                        seen@,
                        parent@,
                        dist,
                        route,
                        place,
                        seen_before,
                        j as int,
                    );
                    route = route.update(next as int, route[current as int].push(next));
                    place = place.update(next as int, order@.len() as int);
                    dist = dist.update(next as int, level + 1);
                }
                seen.set(next, true);
                parent.set(next, Some(current));
                order.push(next);
                j += 1;
            }
            proof {
                lemma_settles(grid, order@, head as int, seen@, dist, seen_before);
                lemma_search_advance(grid, order@, head as int, seen@, dist);
                lemma_reared_advance(
                    grid,
                    start as int,
                    head as int,
                    seen@,
                    parent@,
                    place,
                    fresh.take(j as int),
                );
            }
            head += 1;
        }
        proof {
            lemma_search_facts(grid, start as int, order@, head as int, seen@, parent@, dist);
            lemma_exhausted(grid, start as int, order@, seen@, parent@, dist, end as int);
        }
        Err(MazeError::NoPath)
    }
}

/// A maze has one solution at most: two paths that both are the foremost of
/// the shortest paths from the entrance to the exit are the same path.
pub proof fn lemma_one_solution(maze: Maze, first: Seq<Cell>, second: Seq<Cell>)
    requires
        maze.wf(),
        maze.solved_by(first),
        maze.solved_by(second),
    ensures
        first == second,
{
    let grid = maze@;
    let one = indices(first);
    let other = indices(second);
    assert(first.len() == second.len()) by {
        assert(grid.joins(one, maze.start.vec_coord as int, maze.end.vec_coord as int));
        assert(grid.joins(other, maze.start.vec_coord as int, maze.end.vec_coord as int));
    }
    assert(grid.joins(other, maze.start.vec_coord as int, one.last() as int));
    assert(grid.joins(one, maze.start.vec_coord as int, other.last() as int));
    assert(crate::turns::not_after(grid.turns(one), grid.turns(other)));
    assert(crate::turns::not_after(grid.turns(other), grid.turns(one)));
    if grid.turns(one) != grid.turns(other) {
        crate::turns::lemma_precedes_one_way(grid.turns(one), grid.turns(other));
    }
    crate::turns::lemma_turns_tell_path(grid, one, other);
    assert forall|k: int| 0 <= k < first.len() implies first[k] == second[k] by {
        assert(one[k] == first[k].vec_coord);
        assert(other[k] == second[k].vec_coord);
    }
    assert(first =~= second);
}

} // verus!
