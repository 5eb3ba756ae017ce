//! The compressed maze: a graph whose nodes are the entrance, the junctions
//! and the dead ends of a maze, and whose edges are its straight corridors.
//!
//! The graph is built by a survey. Nodes wait on a stack; the node on top is
//! taken, and from it a walk sets out to the left, to the right, upward and
//! downward, wherever the neighbouring cell is open and has not been seen. A
//! walk marks the cells it enters as seen and halts at a junction, a cell
//! with an open neighbour to either side of the walk, or where the next cell
//! ahead is not open or has been seen. Where a walk up or down halts before
//! a cell that has been seen, an edge is set to the node registered there.
//! Everywhere else the halting cell becomes a node, an edge is set to it,
//! and it is put on the stack. The weight of an edge is the number of steps
//! from its first node to its second.

use crate::graph::{
    lemma_handle_unique,
    lemma_registered_has_handle,
    Edge,
    Graph,
    GraphModel,
    Node,
};
use crate::grid::{
    cell_count,
    cell_is_open,
    fits,
    grid_of,
    lemma_corridor_extend,
    lemma_index_row_col,
    lemma_positive_width,
    lemma_row_col,
    lemma_step_inside,
    neighbor,
    Direction,
    Grid,
};
use crate::maze::MazeError;
use crate::traversal::{below, lemma_distinct_below};
use vstd::prelude::*;

verus! {

/// Which of the four neighbours of a cell are open and have not been seen.
#[derive(Clone, Copy, Debug, PartialEq, Eq, Structural)]
pub struct Neighbors {
    pub above: bool,
    pub below: bool,
    pub left: bool,
    pub right: bool,
}

/// The node that stands for the cell `at`.
pub open spec fn node_at(grid: Grid, at: int) -> Node {
    Node { x: grid.col(at) as u32, y: grid.row(at) as u32, vec_coord: at as usize }
}

/// Whether a walk in the given direction finds an open cell to either side
/// of `at`.
pub open spec fn junction(grid: Grid, at: int, toward: Direction) -> bool {
    if toward.vertical() {
        grid.open_toward(at, Direction::Left) || grid.open_toward(at, Direction::Right)
    } else {
        grid.open_toward(at, Direction::Up) || grid.open_toward(at, Direction::Down)
    }
}

/// Whether a walk in the given direction halts at `at`.
pub open spec fn halts(grid: Grid, seen: Seq<bool>, at: int, toward: Direction) -> bool {
    junction(grid, at, toward) || !grid.free_toward(seen, at, toward)
}

/// A bound on the number of steps that a walk from `at` can still take.
pub open spec fn remaining(size: int, at: int, toward: Direction) -> int {
    match toward {
        Direction::Up | Direction::Left => at + 1,
        Direction::Down | Direction::Right => size - at,
    }
}

/// How a walk ended: the cell at which it halted, the number of steps taken
/// from the node it set out from, and the cells seen by then.
pub struct Run {
    pub end: int,
    pub steps: int,
    pub seen: Seq<bool>,
}

/// The walk that enters `at` with its step number `steps`.
pub open spec fn run(grid: Grid, seen: Seq<bool>, at: int, toward: Direction, steps: int) -> Run
    decreases remaining(grid.size(), at, toward),
{
    let seen = seen.update(at, true);
    if halts(grid, seen, at, toward) {
        Run { end: at, steps, seen }
    } else {
        run(grid, seen, grid.step(at, toward), toward, steps + 1)
    }
}

/// The state of a survey: the graph so far, the cells seen, and the stack of
/// nodes from which no walk has set out yet.
pub struct Survey {
    pub graph: GraphModel,
    pub seen: Seq<bool>,
    pub pending: Seq<usize>,
}

/// The survey after the walk from node `from` in the given direction, if the
/// neighbouring cell admits one.
pub open spec fn explored(grid: Grid, survey: Survey, from: usize, toward: Direction) -> Survey {
    let origin = survey.graph.nodes[from as int];
    if grid.free_toward(survey.seen, origin.vec_coord as int, toward) {
        let walk = run(grid, survey.seen, grid.step(origin.vec_coord as int, toward), toward, 1);
        let ahead = grid.step(walk.end, toward);
        if toward.vertical() && grid.can_step(walk.end, toward) && walk.seen[ahead] {
            Survey {
                graph: survey.graph.with_edge_between(
                    origin,
                    node_at(grid, ahead),
                    (walk.steps + 1) as u32,
                ),
                seen: walk.seen,
                pending: survey.pending,
            }
        } else {
            let fresh = survey.graph.nodes.len();
            Survey {
                graph: survey.graph.with_node(node_at(grid, walk.end)).with_edge(
                    from as int,
                    fresh as int,
                    walk.steps as u32,
                ),
                seen: walk.seen,
                pending: survey.pending.push(fresh as usize),
            }
        }
    } else {
        survey
    }
}

/// The survey after the node on top of the stack is taken and the walks from
/// it are made: to the left, to the right, upward, downward.
pub open spec fn expanded(grid: Grid, survey: Survey) -> Survey {
    let from = survey.pending.last();
    let taken = Survey {
        graph: survey.graph,
        seen: survey.seen,
        pending: survey.pending.drop_last(),
    };
    let left = explored(grid, taken, from, Direction::Left);
    let right = explored(grid, left, from, Direction::Right);
    let up = explored(grid, right, from, Direction::Up);
    explored(grid, up, from, Direction::Down)
}

/// The graph once the stack is empty, or after `fuel` nodes have been taken
/// from it. A grid has no more nodes than cells, so a survey with as much
/// fuel as the grid has cells runs until the stack is empty.
pub open spec fn survey_from(grid: Grid, survey: Survey, fuel: nat) -> GraphModel
    decreases fuel,
{
    if fuel == 0 || survey.pending.len() == 0 {
        survey.graph
    } else {
        survey_from(grid, expanded(grid, survey), (fuel - 1) as nat)
    }
}

/// The survey before the first walk: the entrance is a node, seen and
/// pending.
pub open spec fn outset(grid: Grid, entrance: int) -> Survey {
    Survey {
        graph: GraphModel { nodes: seq![node_at(grid, entrance)], links: seq![Seq::empty()] },
        seen: Seq::new(grid.size() as nat, |i: int| false).update(entrance, true),
        pending: seq![0usize],
    }
}

/// The compressed graph of a grid with the given entrance.
pub open spec fn compressed(grid: Grid, entrance: int) -> GraphModel {
    survey_from(grid, outset(grid, entrance), grid.size() as nat)
}

/// The number of cells of its line that lie behind a walk at `at`.
pub open spec fn behind(grid: Grid, at: int, toward: Direction) -> int {
    match toward {
        Direction::Up => grid.height - 1 - grid.row(at),
        Direction::Down => grid.row(at),
        Direction::Left => grid.width - 1 - grid.col(at),
        Direction::Right => grid.col(at),
    }
}

/// Whether the cell `at` lies on the line from `origin` in the given
/// direction, beyond `origin`.
pub open spec fn beyond(grid: Grid, origin: int, toward: Direction, at: int) -> bool {
    match toward {
        Direction::Up => grid.col(at) == grid.col(origin) && grid.row(at) < grid.row(origin),
        Direction::Down => grid.col(at) == grid.col(origin) && grid.row(at) > grid.row(origin),
        Direction::Left => grid.row(at) == grid.row(origin) && grid.col(at) < grid.col(origin),
        Direction::Right => grid.row(at) == grid.row(origin) && grid.col(at) > grid.col(origin),
    }
}

/// The edge joins the two ends of a corridor, and weighs its steps.
pub open spec fn edge_is_corridor(grid: Grid, nodes: Seq<Node>, edge: Edge) -> bool {
    exists|toward: Direction| #[trigger]
        grid.corridor(
            nodes[edge.from as int].vec_coord as int,
            toward,
            edge.weight as int,
            nodes[edge.to as int].vec_coord as int,
        )
}

/// Every edge of the graph joins the two ends of a corridor of the grid, and
/// weighs its steps.
pub open spec fn corridors(grid: Grid, graph: GraphModel) -> bool {
    forall|i: int, k: int|
        0 <= i < graph.links.len() && 0 <= k < graph.links[i].len() ==> edge_is_corridor(
            grid,
            graph.nodes,
            #[trigger] graph.links[i][k],
        )
}

/// The graph charts the grid: it is well formed; each node stands for an
/// open cell, no two for the same; each edge joins the two ends of a corridor
/// and weighs its steps.
pub open spec fn charted(grid: Grid, graph: GraphModel) -> bool {
    &&& graph.wf()
    &&& corridors(grid, graph)
    &&& forall|i: int|
        0 <= i < graph.nodes.len() ==> {
            let node = #[trigger] graph.nodes[i];
            &&& node.vec_coord < grid.size()
            &&& node == node_at(grid, node.vec_coord as int)
            &&& grid.is_open(node.vec_coord as int)
        }
    &&& forall|i: int, j: int|
        0 <= i < j < graph.nodes.len() ==> (#[trigger] graph.nodes[i]).vec_coord != (
        #[trigger] graph.nodes[j]).vec_coord
}

/// What a survey keeps: the grid fits the machine; the graph charts the
/// grid; only open cells have been seen, among them those of the nodes; the
/// stack holds nodes.
pub open spec fn orderly(grid: Grid, survey: Survey) -> bool {
    &&& grid.wf()
    &&& grid.width <= u32::MAX
    &&& grid.height <= u32::MAX
    &&& grid.size() <= usize::MAX
    &&& charted(grid, survey.graph)
    &&& survey.seen.len() == grid.size()
    &&& forall|i: int| 0 <= i < survey.seen.len() && #[trigger] survey.seen[i] ==> grid.is_open(i)
    &&& forall|i: int|
        0 <= i < survey.graph.nodes.len() ==> survey.seen[(
        #[trigger] survey.graph.nodes[i]).vec_coord as int]
    &&& below(survey.pending, survey.graph.nodes.len())
}

/// The nodes of two different cells lie at different places.
pub proof fn lemma_node_at_differs(grid: Grid, a: int, b: int)
    requires
        grid.wf(),
        grid.width <= u32::MAX,
        grid.height <= u32::MAX,
        0 <= a < grid.size(),
        0 <= b < grid.size(),
        a != b,
    ensures
        !node_at(grid, a).same_place(node_at(grid, b)),
{
    lemma_positive_width(grid.width as int, grid.height as int);
    lemma_row_col(grid.width as int, grid.height as int, a);
    lemma_row_col(grid.width as int, grid.height as int, b);
    if node_at(grid, a).same_place(node_at(grid, b)) {
        assert(grid.col(a) == grid.col(b));
        assert(grid.row(a) == grid.row(b));
    }
}

/// In an orderly survey every node is the handle of its place.
pub proof fn lemma_orderly_canonical(grid: Grid, survey: Survey, i: int)
    requires
        orderly(grid, survey),
        0 <= i < survey.graph.nodes.len(),
    ensures
        survey.graph.canonical(i),
{
    let nodes = survey.graph.nodes;
    assert forall|j: int| 0 <= j < i implies !(#[trigger] nodes[j]).same_place(nodes[i]) by {
        lemma_node_at_differs(grid, nodes[j].vec_coord as int, nodes[i].vec_coord as int);
    }
}

/// An orderly survey has no more nodes than the grid has cells.
pub proof fn lemma_orderly_count(grid: Grid, survey: Survey)
    requires
        orderly(grid, survey),
    ensures
        survey.graph.nodes.len() <= grid.size(),
{
    let nodes = survey.graph.nodes;
    let places = nodes.map_values(|node: Node| node.vec_coord);
    assert forall|i: int, j: int| 0 <= i < places.len() && 0 <= j < places.len() && i != j implies places[i]
        != places[j] by {
        if i < j {
            assert(nodes[i].vec_coord != nodes[j].vec_coord);
        } else {
            assert(nodes[j].vec_coord != nodes[i].vec_coord);
        }
    }
    assert forall|i: int| 0 <= i < places.len() implies #[trigger] places[i] < grid.size() as nat by {
        assert(nodes[i].vec_coord < grid.size());
    }
    lemma_distinct_below(places, grid.size() as nat);
}

/// What holds of a walk that enters an open cell not seen before: it halts
/// at such a cell; the cells seen before stay seen, and the cell where it
/// halts is seen; its steps are bounded by the cells that lie behind it.
pub proof fn lemma_run(grid: Grid, seen: Seq<bool>, at: int, toward: Direction, steps: int)
    requires
        grid.wf(),
        seen.len() == grid.size(),
        0 <= at < grid.size(),
        grid.is_open(at),
        !seen[at],
        steps <= behind(grid, at, toward),
    ensures
        ({
            let walk = run(grid, seen, at, toward, steps);
            &&& 0 <= walk.end < grid.size()
            &&& grid.is_open(walk.end)
            &&& !seen[walk.end]
            &&& walk.seen.len() == seen.len()
            &&& walk.seen[walk.end]
            &&& forall|i: int| 0 <= i < seen.len() && seen[i] ==> #[trigger] walk.seen[i]
            &&& forall|i: int|
                0 <= i < seen.len() && #[trigger] walk.seen[i] ==> seen[i] || grid.is_open(i)
            &&& forall|i: int|
                0 <= i < seen.len() && #[trigger] walk.seen[i] && !seen[i] ==> i == at || beyond(
                    grid,
                    at,
                    toward,
                    i,
                )
            &&& steps <= walk.steps <= behind(grid, walk.end, toward)
            &&& grid.corridor(at, toward, walk.steps - steps, walk.end)
        }),
    decreases remaining(grid.size(), at, toward),
{
    let marked = seen.update(at, true);
    if !halts(grid, marked, at, toward) {
        let next = grid.step(at, toward);
        lemma_step_inside(grid.width as int, grid.height as int, at, toward);
        lemma_run(grid, marked, next, toward, steps + 1);
        let walk = run(grid, marked, next, toward, steps + 1);
        assert forall|i: int| 0 <= i < seen.len() && seen[i] implies #[trigger] walk.seen[i] by {
            assert(marked[i]);
        }
        assert forall|i: int| 0 <= i < seen.len() && #[trigger] walk.seen[i] implies seen[i]
            || grid.is_open(i) by {
            if !grid.is_open(i) {
                assert(marked[i]);
            }
        }
        assert forall|i: int| 0 <= i < seen.len() && #[trigger] walk.seen[i] && !seen[i] implies i
            == at || beyond(grid, at, toward, i) by {
            if i != at {
                assert(!marked[i]);
            }
        }
    }
}

/// A walk from a node sees only cells on its line beyond the node, and the
/// cells seen before stay seen.
pub proof fn lemma_explored_marks(grid: Grid, survey: Survey, from: usize, toward: Direction)
    requires
        orderly(grid, survey),
        from < survey.graph.nodes.len(),
    ensures
        ({
            let after = explored(grid, survey, from, toward);
            let origin = survey.graph.nodes[from as int].vec_coord as int;
            &&& after.seen.len() == survey.seen.len()
            &&& forall|i: int| 0 <= i < survey.seen.len() && survey.seen[i] ==> #[trigger] after.seen[i]
            &&& forall|i: int|
                0 <= i < survey.seen.len() && #[trigger] after.seen[i] && !survey.seen[i] ==> beyond(
                    grid,
                    origin,
                    toward,
                    i,
                )
        }),
{
    let origin = survey.graph.nodes[from as int].vec_coord as int;
    if grid.free_toward(survey.seen, origin, toward) {
        let first = grid.step(origin, toward);
        lemma_step_inside(grid.width as int, grid.height as int, origin, toward);
        lemma_row_col(grid.width as int, grid.height as int, origin);
        lemma_run(grid, survey.seen, first, toward, 1);
    }
}

/// The neighbour of a cell in one direction does not lie beyond the cell in
/// another.
pub proof fn lemma_spared(grid: Grid, origin: int, walked: Direction, other: Direction)
    requires
        grid.wf(),
        grid.can_step(origin, other),
        walked != other,
    ensures
        !beyond(grid, origin, walked, grid.step(origin, other)),
{
    lemma_step_inside(grid.width as int, grid.height as int, origin, other);
}

/// Registering a node leaves every edge a corridor.
pub proof fn lemma_with_node_corridors(grid: Grid, graph: GraphModel, node: Node)
    requires
        graph.wf(),
        corridors(grid, graph),
    ensures
        corridors(grid, graph.with_node(node)),
{
    let grown = graph.with_node(node);
    assert forall|i: int, k: int|
        0 <= i < grown.links.len() && 0 <= k < grown.links[i].len() implies edge_is_corridor(
        grid,
        grown.nodes,
        #[trigger] grown.links[i][k],
    ) by {
        let edge = graph.links[i][k];
        assert(grown.links[i][k] == edge);
        assert(graph.canonical(edge.to as int));
        assert(edge_is_corridor(grid, graph.nodes, edge));
        let toward = choose|toward: Direction| #[trigger]
            grid.corridor(
                graph.nodes[edge.from as int].vec_coord as int,
                toward,
                edge.weight as int,
                graph.nodes[edge.to as int].vec_coord as int,
            );
        assert(grid.corridor(
            grown.nodes[edge.from as int].vec_coord as int,
            toward,
            edge.weight as int,
            grown.nodes[edge.to as int].vec_coord as int,
        ));
    }
}

/// Setting an edge along a corridor leaves every edge a corridor.
pub proof fn lemma_with_edge_corridors(
    grid: Grid,
    graph: GraphModel,
    from: int,
    to: int,
    weight: u32,
)
    requires
        graph.wf(),
        corridors(grid, graph),
        0 <= from < graph.nodes.len(),
        0 <= to < graph.nodes.len(),
        edge_is_corridor(
            grid,
            graph.nodes,
            Edge { weight, from: from as usize, to: to as usize },
        ),
    ensures
        corridors(grid, graph.with_edge(from, to, weight)),
{
    let set = graph.with_edge(from, to, weight);
    let new = Edge { weight, from: from as usize, to: to as usize };
    if graph.linked(from, to) {
        assert(graph.is_slot(from, to, graph.slot(from, to)));
    }
    assert forall|i: int, k: int|
        0 <= i < set.links.len() && 0 <= k < set.links[i].len() implies edge_is_corridor(
        grid,
        set.nodes,
        #[trigger] set.links[i][k],
    ) by {
        if set.links[i][k] != new {
            assert(set.links[i][k] == graph.links[i][k]);
            assert(edge_is_corridor(grid, graph.nodes, graph.links[i][k]));
        }
    }
}

/// The linear index of the cell in column `x` of row `y` of an image of the
/// given width.
pub fn xy_to_image_buff_location(x: u32, y: u32, width: u32) -> (at: usize)
    requires
        y * width + x <= usize::MAX,
    ensures
        at == y * width + x,
{
    assert(y * width >= 0) by (nonlinear_arith)
        requires
            y >= 0,
            width >= 0,
    ;
    (y as usize) * (width as usize) + (x as usize)
}

/// Whether the neighbour of `at` in the given direction is an open cell.
fn open_toward(
    image_buff: &Vec<u8>,
    width: u32,
    height: u32,
    is_grey: bool,
    at: usize,
    toward: Direction,
) -> (open: bool)
    requires
        fits(image_buff.len() as nat, width as nat, height as nat, is_grey),
        at < width * height,
    ensures
        open == grid_of(image_buff@, width as nat, height as nat, is_grey).open_toward(
            at as int,
            toward,
        ),
{
    proof {
        lemma_positive_width(width as int, height as int);
    }
    let size = image_buff.len() / (if is_grey {
        1
    } else {
        3
    });
    match neighbor(at, toward, width as usize, size) {
        Some(next) => {
            proof {
                lemma_step_inside(width as int, height as int, at as int, toward);
            }
            cell_is_open(image_buff, next, width, height, is_grey)
        },
        None => false,
    }
}

/// Whether the neighbour of `at` in the given direction is an open cell that
/// has not been visited.
fn free_toward(
    image_buff: &Vec<u8>,
    visited_vec: &Vec<bool>,
    width: u32,
    height: u32,
    is_grey: bool,
    at: usize,
    toward: Direction,
) -> (free: bool)
    requires
        fits(image_buff.len() as nat, width as nat, height as nat, is_grey),
        visited_vec.len() == width * height,
        at < width * height,
    ensures
        free == grid_of(image_buff@, width as nat, height as nat, is_grey).free_toward(
            visited_vec@,
            at as int,
            toward,
        ),
{
    proof {
        lemma_positive_width(width as int, height as int);
    }
    match neighbor(at, toward, width as usize, visited_vec.len()) {
        Some(next) => {
            proof {
                lemma_step_inside(width as int, height as int, at as int, toward);
            }
            cell_is_open(image_buff, next, width, height, is_grey) && !visited_vec[next]
        },
        None => false,
    }
}

/// Which neighbours of the cell in column `x` of row `y` are open and have
/// not been visited.
pub fn get_neighbors(
    x: u32,
    y: u32,
    image_buff: &Vec<u8>,
    visited_vec: &Vec<bool>,
    width: u32,
    height: u32,
    is_grey: bool,
) -> (neighbors: Neighbors)
    requires
        fits(image_buff.len() as nat, width as nat, height as nat, is_grey),
        visited_vec.len() == width * height,
        x < width,
        y < height,
    ensures
        ({
            let grid = grid_of(image_buff@, width as nat, height as nat, is_grey);
            let at = y * width + x;
            &&& neighbors.above == grid.free_toward(visited_vec@, at, Direction::Up)
            &&& neighbors.below == grid.free_toward(visited_vec@, at, Direction::Down)
            &&& neighbors.left == grid.free_toward(visited_vec@, at, Direction::Left)
            &&& neighbors.right == grid.free_toward(visited_vec@, at, Direction::Right)
        }),
{
    proof {
        assert(y * width + x < width * height) by (nonlinear_arith)
            requires
                0 <= x < width,
                0 <= y < height,
        ;
    }
    let at = xy_to_image_buff_location(x, y, width);
    Neighbors {
        above: free_toward(image_buff, visited_vec, width, height, is_grey, at, Direction::Up),
        below: free_toward(image_buff, visited_vec, width, height, is_grey, at, Direction::Down),
        left: free_toward(image_buff, visited_vec, width, height, is_grey, at, Direction::Left),
        right: free_toward(image_buff, visited_vec, width, height, is_grey, at, Direction::Right),
    }
}

/// Whether a walk in the given direction finds an open cell to either side
/// of `at`.
fn is_junction(
    image_buff: &Vec<u8>,
    width: u32,
    height: u32,
    is_grey: bool,
    at: usize,
    toward: Direction,
) -> (found: bool)
    requires
        fits(image_buff.len() as nat, width as nat, height as nat, is_grey),
        at < width * height,
    ensures
        found == junction(
            grid_of(image_buff@, width as nat, height as nat, is_grey),
            at as int,
            toward,
        ),
{
    if toward.is_vertical() {
        open_toward(image_buff, width, height, is_grey, at, Direction::Left) || open_toward(
            image_buff,
            width,
            height,
            is_grey,
            at,
            Direction::Right,
        )
    } else {
        open_toward(image_buff, width, height, is_grey, at, Direction::Up) || open_toward(
            image_buff,
            width,
            height,
            is_grey,
            at,
            Direction::Down,
        )
    }
}

/// Walks from the cell `first` in the given direction until the walk halts:
/// gives the cell where it halted and the number of steps, and marks the
/// cells entered as visited.
fn walk(
    image_buff: &Vec<u8>,
    visited_vec: &mut Vec<bool>,
    width: u32,
    height: u32,
    is_grey: bool,
    first: usize,
    toward: Direction,
) -> (stop: (usize, u32))
    requires
        fits(image_buff.len() as nat, width as nat, height as nat, is_grey),
        old(visited_vec).len() == width * height,
        first < width * height,
        !old(visited_vec)[first as int],
        grid_of(image_buff@, width as nat, height as nat, is_grey).is_open(first as int),
        1 <= behind(
            grid_of(image_buff@, width as nat, height as nat, is_grey),
            first as int,
            toward,
        ),
    ensures
        ({
            let grid = grid_of(image_buff@, width as nat, height as nat, is_grey);
            let walk = run(grid, old(visited_vec)@, first as int, toward, 1);
            &&& stop.0 == walk.end
            &&& stop.1 == walk.steps
            &&& final(visited_vec)@ == walk.seen
        }),
{
    let ghost grid = grid_of(image_buff@, width as nat, height as nat, is_grey);
    let ghost seen = visited_vec@;
    let size = visited_vec.len();
    let mut at = first;
    let mut steps: u32 = 1;
    proof {
        lemma_positive_width(width as int, height as int);
    }
    loop
        invariant
            fits(image_buff.len() as nat, width as nat, height as nat, is_grey),
            grid == grid_of(image_buff@, width as nat, height as nat, is_grey),
            visited_vec.len() == width * height,
            size == width * height,
            0 < width,
            0 < height,
            at < size,
            grid.is_open(at as int),
            !visited_vec[at as int],
            1 <= steps <= behind(grid, at as int, toward),
            seen == old(visited_vec)@,
            run(grid, seen, first as int, toward, 1) == run(
                grid,
                visited_vec@,
                at as int,
                toward,
                steps as int,
            ),
        decreases remaining(size as int, at as int, toward),
    {
        proof {
            lemma_row_col(width as int, height as int, at as int);
        }
        let ghost prior = visited_vec@;
        visited_vec.set(at, true);
        let side = is_junction(image_buff, width, height, is_grey, at, toward);
        let ahead = free_toward(image_buff, visited_vec, width, height, is_grey, at, toward);
        assert(visited_vec@ == prior.update(at as int, true));
        assert((side || !ahead) == halts(grid, visited_vec@, at as int, toward));
        if side || !ahead {
            assert(run(grid, prior, at as int, toward, steps as int) == (Run {
                end: at as int,
                steps: steps as int,
                seen: visited_vec@,
            }));
            return (at, steps);
        }
        proof {
            lemma_step_inside(width as int, height as int, at as int, toward);
            assert(run(grid, prior, at as int, toward, steps as int) == run(
                grid,
                visited_vec@,
                grid.step(at as int, toward),
                toward,
                steps + 1,
            ));
        }
        match neighbor(at, toward, width as usize, size) {
            Some(next) => {
                at = next;
                steps = steps + 1;
            },
            None => {},
        }
    }
}

/// Makes the walk from node `from` in the given direction, if the
/// neighbouring cell admits one, and enters what it finds in the graph.
fn explore(
    image_buff: &Vec<u8>,
    width: u32,
    height: u32,
    is_grey: bool,
    graph: &mut Graph,
    visited_vec: &mut Vec<bool>,
    node_queue: &mut Vec<usize>,
    from: usize,
    toward: Direction,
)
    requires
        fits(image_buff.len() as nat, width as nat, height as nat, is_grey),
        orderly(
            grid_of(image_buff@, width as nat, height as nat, is_grey),
            Survey { graph: old(graph)@, seen: old(visited_vec)@, pending: old(node_queue)@ },
        ),
        from < old(graph)@.nodes.len(),
    ensures
        ({
            let grid = grid_of(image_buff@, width as nat, height as nat, is_grey);
            let before = Survey {
                graph: old(graph)@,
                seen: old(visited_vec)@,
                pending: old(node_queue)@,
            };
            let after = Survey {
                graph: final(graph)@,
                seen: final(visited_vec)@,
                pending: final(node_queue)@,
            };
            &&& after == explored(grid, before, from, toward)
            &&& orderly(grid, after)
            &&& after.graph.nodes.len() >= before.graph.nodes.len()
            &&& after.graph.nodes.len() - after.pending.len() == before.graph.nodes.len()
                - before.pending.len()
        }),
{
    let ghost grid = grid_of(image_buff@, width as nat, height as nat, is_grey);
    let ghost before = Survey { graph: graph@, seen: visited_vec@, pending: node_queue@ };
    let origin = graph.nodes[from];
    let size = visited_vec.len();
    assert(before.graph.nodes[from as int] == origin);
    proof {
        lemma_positive_width(width as int, height as int);
    }
    if !free_toward(image_buff, visited_vec, width, height, is_grey, origin.vec_coord, toward) {
        return ;
    }
    let first = match neighbor(origin.vec_coord, toward, width as usize, size) {
        Some(first) => first,
        None => {
            return ;
        },
    };
    proof {
        lemma_step_inside(width as int, height as int, origin.vec_coord as int, toward);
        lemma_row_col(width as int, height as int, origin.vec_coord as int);
        lemma_run(grid, before.seen, first as int, toward, 1);
    }
    let (end, steps) = walk(image_buff, visited_vec, width, height, is_grey, first, toward);
    let ghost walked = run(grid, before.seen, first as int, toward, 1);
    proof {
        lemma_row_col(width as int, height as int, end as int);
    }
    let ahead = neighbor(end, toward, width as usize, size);
    let halted_before_seen = match ahead {
        Some(next) => toward.is_vertical() && visited_vec[next],
        None => false,
    };
    if halted_before_seen {
        let next = ahead.unwrap();
        proof {
            lemma_step_inside(width as int, height as int, end as int, toward);
            lemma_row_col(width as int, height as int, next as int);
        }
        let probe = Node::from(
            (next % (width as usize)) as u32,
            (next / (width as usize)) as u32,
            next,
        );
        graph.add_edge(&origin, &probe, steps + 1);
        proof {
            let after = Survey { graph: graph@, seen: visited_vec@, pending: node_queue@ };
            assert(before.graph.registered(origin)) by {
                assert(before.graph.nodes[from as int].same_place(origin));
            }
            if before.graph.registered(probe) {
                crate::graph::lemma_registered_has_handle(before.graph, origin);
                crate::graph::lemma_registered_has_handle(before.graph, probe);
            }
            assert(after.graph.nodes == before.graph.nodes);
            assert(walked.seen[next as int]);
            assert(grid.is_open(next as int));
            if before.graph.registered(probe) {
                let source = before.graph.handle(origin);
                let target = before.graph.handle(probe);
                lemma_orderly_canonical(grid, before, from as int);
                lemma_handle_unique(before.graph, origin, from as int, source);
                let found = before.graph.nodes[target];
                assert(found == node_at(grid, found.vec_coord as int));
                if found.vec_coord != next {
                    lemma_node_at_differs(grid, found.vec_coord as int, next as int);
                }
                lemma_corridor_extend(grid, first as int, toward, steps - 1, end as int);
                assert(grid.corridor(origin.vec_coord as int, toward, steps + 1, next as int));
                assert(probe == node_at(grid, next as int));
                assert(found.same_place(probe));
                assert(found.vec_coord == next);
                assert(source == from);
                let edge = Edge { weight: (steps + 1) as u32, from: source as usize, to: target as usize };
                assert(grid.corridor(
                    before.graph.nodes[edge.from as int].vec_coord as int,
                    toward,
                    edge.weight as int,
                    before.graph.nodes[edge.to as int].vec_coord as int,
                ));
                lemma_with_edge_corridors(grid, before.graph, source, target, (steps + 1) as u32);
            }
            assert(orderly(grid, after)) by {
                assert forall|i: int| 0 <= i < after.graph.nodes.len() implies after.seen[(
                #[trigger] after.graph.nodes[i]).vec_coord as int] by {
                    let node = before.graph.nodes[i];
                    assert(before.seen[node.vec_coord as int]);
                }
                assert forall|i: int| 0 <= i < after.seen.len() && #[trigger] after.seen[i] implies grid.is_open(
                    i,
                ) by {
                    assert(before.seen[i] || grid.is_open(i));
                }
            }
        }
    } else {
        proof {
            lemma_orderly_count(grid, before);
        }
        let fresh = graph.nodes.len();
        let node = graph.add_node(
            (end % (width as usize)) as u32,
            (end / (width as usize)) as u32,
            end,
        );
        proof {
            let grown = Survey { graph: graph@, seen: visited_vec@, pending: node_queue@ };
            assert(node == node_at(grid, end as int));
            assert forall|i: int| 0 <= i < grown.graph.nodes.len() implies {
                let node = #[trigger] grown.graph.nodes[i];
                &&& node.vec_coord < grid.size()
                &&& node == node_at(grid, node.vec_coord as int)
                &&& grown.seen[node.vec_coord as int]
                &&& grid.is_open(node.vec_coord as int)
            } by {
                if i < fresh {
                    let node = before.graph.nodes[i];
                    assert(grown.graph.nodes[i] == node);
                    assert(before.seen[node.vec_coord as int]);
                }
            }
            assert forall|i: int| 0 <= i < grown.graph.nodes.len() implies grown.seen[(
            #[trigger] grown.graph.nodes[i]).vec_coord as int] by {
                let node = grown.graph.nodes[i];
                assert(grown.seen[node.vec_coord as int]);
            }
            assert forall|i: int, j: int| 0 <= i < j < grown.graph.nodes.len() implies (
            #[trigger] grown.graph.nodes[i]).vec_coord != (#[trigger] grown.graph.nodes[j]).vec_coord by {
                assert(grown.graph.nodes[i] == before.graph.nodes[i]);
                if j < fresh {
                    assert(grown.graph.nodes[j] == before.graph.nodes[j]);
                } else {
                    assert(before.seen[before.graph.nodes[i].vec_coord as int]);
                }
            }
            assert(below(grown.pending, grown.graph.nodes.len())) by {
                assert forall|k: int| 0 <= k < grown.pending.len() implies #[trigger] grown.pending[k]
                    < grown.graph.nodes.len() by {
                    assert(before.pending[k] < before.graph.nodes.len());
                }
            }
            assert forall|i: int| 0 <= i < grown.seen.len() && #[trigger] grown.seen[i] implies grid.is_open(
                i,
            ) by {
                assert(before.seen[i] || grid.is_open(i));
            }
            lemma_with_node_corridors(grid, before.graph, node);
            assert(orderly(grid, grown));
            assert(grid.corridor(origin.vec_coord as int, toward, steps as int, end as int));
            assert(grown.graph.nodes[from as int] == origin);
            assert(grown.graph.nodes[fresh as int] == node);
            let edge = Edge { weight: steps, from: from, to: fresh };
            assert(grid.corridor(
                grown.graph.nodes[edge.from as int].vec_coord as int,
                toward,
                edge.weight as int,
                grown.graph.nodes[edge.to as int].vec_coord as int,
            ));
            assert(edge_is_corridor(grid, grown.graph.nodes, edge));
            lemma_with_edge_corridors(grid, grown.graph, from as int, fresh as int, steps);
            lemma_orderly_canonical(grid, grown, from as int);
            lemma_orderly_canonical(grid, grown, fresh as int);
        }
        graph.link(from, fresh, steps);
        node_queue.push(fresh);
        proof {
            let after = Survey { graph: graph@, seen: visited_vec@, pending: node_queue@ };
            assert(after.graph.nodes == before.graph.nodes.push(node));
            assert forall|i: int| 0 <= i < after.graph.nodes.len() implies {
                let node = #[trigger] after.graph.nodes[i];
                &&& node.vec_coord < grid.size()
                &&& node == node_at(grid, node.vec_coord as int)
                &&& after.seen[node.vec_coord as int]
                &&& grid.is_open(node.vec_coord as int)
            } by {
                if i < fresh {
                    let node = before.graph.nodes[i];
                    assert(after.graph.nodes[i] == node);
                    assert(before.seen[node.vec_coord as int]);
                }
            }
            assert forall|i: int| 0 <= i < after.graph.nodes.len() implies after.seen[(
            #[trigger] after.graph.nodes[i]).vec_coord as int] by {
                let node = after.graph.nodes[i];
                assert(after.seen[node.vec_coord as int]);
            }
            assert forall|i: int, j: int| 0 <= i < j < after.graph.nodes.len() implies (
            #[trigger] after.graph.nodes[i]).vec_coord != (#[trigger] after.graph.nodes[j]).vec_coord by {
                assert(after.graph.nodes[i] == before.graph.nodes[i]);
                if j < fresh {
                    assert(after.graph.nodes[j] == before.graph.nodes[j]);
                } else {
                    assert(before.seen[before.graph.nodes[i].vec_coord as int]);
                }
            }
            assert(below(after.pending, after.graph.nodes.len())) by {
                assert forall|k: int| 0 <= k < after.pending.len() implies #[trigger] after.pending[k]
                    < after.graph.nodes.len() by {
                    if k < before.pending.len() {
                        assert(before.pending[k] < before.graph.nodes.len());
                    }
                }
            }
        }
    }
}

/// Whether the cells seen since `before` lie beyond `origin` in one of the
/// given directions, and the cells seen before are still seen.
pub open spec fn seen_along(
    grid: Grid,
    before: Seq<bool>,
    after: Seq<bool>,
    origin: int,
    walked: Seq<Direction>,
) -> bool {
    &&& after.len() == before.len()
    &&& forall|i: int| 0 <= i < before.len() && before[i] ==> #[trigger] after[i]
    &&& forall|i: int|
        0 <= i < before.len() && #[trigger] after[i] && !before[i] ==> exists|k: int|
            0 <= k < walked.len() && beyond(grid, origin, #[trigger] walked[k], i)
}

/// A neighbour that was free before walks in other directions is free after
/// them, and one that was not free is not.
pub proof fn lemma_still_free(
    grid: Grid,
    before: Seq<bool>,
    after: Seq<bool>,
    origin: int,
    walked: Seq<Direction>,
    toward: Direction,
)
    requires
        grid.wf(),
        before.len() == grid.size(),
        seen_along(grid, before, after, origin, walked),
        forall|k: int| 0 <= k < walked.len() ==> walked[k] != toward,
    ensures
        grid.free_toward(after, origin, toward) == grid.free_toward(before, origin, toward),
{
    if grid.can_step(origin, toward) {
        let to = grid.step(origin, toward);
        lemma_step_inside(grid.width as int, grid.height as int, origin, toward);
        if after[to] && !before[to] {
            let k = choose|k: int| 0 <= k < walked.len() && beyond(grid, origin, #[trigger] walked[k], to);
            lemma_spared(grid, origin, walked[k], toward);
        }
    }
}

/// After one more walk from the node, the cells seen lie along the walks
/// made so far.
pub proof fn lemma_seen_along_more(
    grid: Grid,
    start: Seq<bool>,
    survey: Survey,
    from: usize,
    walked: Seq<Direction>,
    toward: Direction,
)
    requires
        orderly(grid, survey),
        from < survey.graph.nodes.len(),
        seen_along(
            grid,
            start,
            survey.seen,
            survey.graph.nodes[from as int].vec_coord as int,
            walked,
        ),
    ensures
        seen_along(
            grid,
            start,
            explored(grid, survey, from, toward).seen,
            survey.graph.nodes[from as int].vec_coord as int,
            walked.push(toward),
        ),
{
    let origin = survey.graph.nodes[from as int].vec_coord as int;
    let after = explored(grid, survey, from, toward).seen;
    let more = walked.push(toward);
    lemma_explored_marks(grid, survey, from, toward);
    assert forall|i: int| 0 <= i < start.len() && start[i] implies #[trigger] after[i] by {
        assert(survey.seen[i]);
    }
    assert forall|i: int| 0 <= i < start.len() && #[trigger] after[i] && !start[i] implies exists|
        k: int,
    |
        0 <= k < more.len() && beyond(grid, origin, #[trigger] more[k], i) by {
        if survey.seen[i] {
            let k = choose|k: int| 0 <= k < walked.len() && beyond(grid, origin, #[trigger] walked[k], i);
            assert(more[k] == walked[k]);
        } else {
            assert(more[walked.len() as int] == toward);
        }
    }
}

/// Makes the walks from node `from`: to the left, to the right, upward and
/// downward, wherever the neighbouring cell was open and not visited when
/// the node was taken.
fn expand(
    image_buff: &Vec<u8>,
    width: u32,
    height: u32,
    is_grey: bool,
    graph: &mut Graph,
    visited_vec: &mut Vec<bool>,
    node_queue: &mut Vec<usize>,
    from: usize,
)
    requires
        fits(image_buff.len() as nat, width as nat, height as nat, is_grey),
        orderly(
            grid_of(image_buff@, width as nat, height as nat, is_grey),
            Survey { graph: old(graph)@, seen: old(visited_vec)@, pending: old(node_queue)@ },
        ),
        from < old(graph)@.nodes.len(),
    ensures
        ({
            let grid = grid_of(image_buff@, width as nat, height as nat, is_grey);
            let before = Survey {
                graph: old(graph)@,
                seen: old(visited_vec)@,
                pending: old(node_queue)@,
            };
            let after = Survey {
                graph: final(graph)@,
                seen: final(visited_vec)@,
                pending: final(node_queue)@,
            };
            let left = explored(grid, before, from, Direction::Left);
            let right = explored(grid, left, from, Direction::Right);
            let up = explored(grid, right, from, Direction::Up);
            &&& after == explored(grid, up, from, Direction::Down)
            &&& orderly(grid, after)
            &&& after.graph.nodes.len() >= before.graph.nodes.len()
            &&& after.graph.nodes.len() - after.pending.len() == before.graph.nodes.len()
                - before.pending.len()
        }),
{
    let ghost grid = grid_of(image_buff@, width as nat, height as nat, is_grey);
    let ghost before = Survey { graph: graph@, seen: visited_vec@, pending: node_queue@ };
    let node = graph.nodes[from];
    let ghost origin = node.vec_coord as int;
    proof {
        assert(before.graph.nodes[from as int] == node);
        lemma_positive_width(width as int, height as int);
        lemma_row_col(width as int, height as int, origin);
        assert(seen_along(grid, before.seen, before.seen, origin, Seq::empty()));
    }
    let neighbors = get_neighbors(
        node.x,
        node.y,
        image_buff,
        visited_vec,
        width,
        height,
        is_grey,
    );
    if neighbors.left {
        explore(
            image_buff,
            width,
            height,
            is_grey,
            graph,
            visited_vec,
            node_queue,
            from,
            Direction::Left,
        );
    }
    let ghost left = Survey { graph: graph@, seen: visited_vec@, pending: node_queue@ };
    let ghost walked = seq![Direction::Left];
    proof {
        assert(left == explored(grid, before, from, Direction::Left));
        lemma_explored_nodes(grid, before, from, Direction::Left, from as int);
        lemma_seen_along_more(grid, before.seen, before, from, Seq::empty(), Direction::Left);
        assert(Seq::<Direction>::empty().push(Direction::Left) =~= walked);
        lemma_still_free(grid, before.seen, left.seen, origin, walked, Direction::Right);
    }
    if neighbors.right {
        explore(
            image_buff,
            width,
            height,
            is_grey,
            graph,
            visited_vec,
            node_queue,
            from,
            Direction::Right,
        );
    }
    let ghost right = Survey { graph: graph@, seen: visited_vec@, pending: node_queue@ };
    let ghost walked = seq![Direction::Left, Direction::Right];
    proof {
        assert(right == explored(grid, left, from, Direction::Right));
        lemma_explored_nodes(grid, left, from, Direction::Right, from as int);
        lemma_seen_along_more(
            grid,
            before.seen,
            left,
            from,
            seq![Direction::Left],
            Direction::Right,
        );
        assert(seq![Direction::Left].push(Direction::Right) =~= walked);
        lemma_still_free(grid, before.seen, right.seen, origin, walked, Direction::Up);
    }
    if neighbors.above {
        explore(
            image_buff,
            width,
            height,
            is_grey,
            graph,
            visited_vec,
            node_queue,
            from,
            Direction::Up,
        );
    }
    let ghost up = Survey { graph: graph@, seen: visited_vec@, pending: node_queue@ };
    let ghost walked = seq![Direction::Left, Direction::Right, Direction::Up];
    proof {
        assert(up == explored(grid, right, from, Direction::Up));
        lemma_explored_nodes(grid, right, from, Direction::Up, from as int);
        lemma_seen_along_more(
            grid,
            before.seen,
            right,
            from,
            seq![Direction::Left, Direction::Right],
            Direction::Up,
        );
        assert(seq![Direction::Left, Direction::Right].push(Direction::Up) =~= walked);
        lemma_still_free(grid, before.seen, up.seen, origin, walked, Direction::Down);
    }
    if neighbors.below {
        explore(
            image_buff,
            width,
            height,
            is_grey,
            graph,
            visited_vec,
            node_queue,
            from,
            Direction::Down,
        );
    }
    proof {
        let after = Survey { graph: graph@, seen: visited_vec@, pending: node_queue@ };
        assert(after == explored(grid, up, from, Direction::Down));
    }
}

/// The first open cell of the image from `low` up to, and not including,
/// `high`.
fn first_open(
    image_buff: &Vec<u8>,
    width: u32,
    height: u32,
    is_grey: bool,
    low: usize,
    high: usize,
) -> (found: Option<usize>)
    requires
        fits(image_buff.len() as nat, width as nat, height as nat, is_grey),
        low <= high <= width * height,
    ensures
        ({
            let grid = grid_of(image_buff@, width as nat, height as nat, is_grey);
            match found {
                Some(at) => grid.first_open(low as int, high as int, at as int),
                None => grid.none_open(low as int, high as int),
            }
        }),
{
    let ghost grid = grid_of(image_buff@, width as nat, height as nat, is_grey);
    let mut at = low;
    while at < high
        invariant
            fits(image_buff.len() as nat, width as nat, height as nat, is_grey),
            grid == grid_of(image_buff@, width as nat, height as nat, is_grey),
            low <= at <= high <= width * height,
            forall|i: int| low <= i < at ==> !grid.is_open(i),
        decreases high - at,
    {
        if cell_is_open(image_buff, at, width, height, is_grey) {
            return Some(at);
        }
        at += 1;
    }
    None
}

/// `i` is the first of `nodes` that lies in row `row`.
pub open spec fn first_in_row(nodes: Seq<Node>, row: int, i: int) -> bool {
    &&& 0 <= i < nodes.len()
    &&& nodes[i].y == row
    &&& forall|j: int| 0 <= j < i ==> (#[trigger] nodes[j]).y != row
}

/// None of `nodes` lies in row `row`.
pub open spec fn none_in_row(nodes: Seq<Node>, row: int) -> bool {
    forall|j: int| 0 <= j < nodes.len() ==> (#[trigger] nodes[j]).y != row
}

/// A maze as the graph of its corridors: the shape of the image, the graph,
/// the node of the entrance and the node of the exit.
pub struct OptMaze {
    pub width: u32,
    pub height: u32,
    pub graph: Graph,
    pub start: Node,
    pub end: Node,
}

impl OptMaze {
    /// The invariant of a compressed maze: the graph is well formed; every
    /// node lies in the image, at the index of its column and row; `start`
    /// is the node registered first, `end` the first node of the last row.
    pub open spec fn wf(&self) -> bool {
        &&& self.graph.wf()
        &&& self.width * self.height <= usize::MAX
        &&& forall|i: int|
            0 <= i < self.graph@.nodes.len() ==> {
                let node = #[trigger] self.graph@.nodes[i];
                &&& node.x < self.width
                &&& node.y < self.height
                &&& node.vec_coord == node.y * self.width + node.x
            }
        &&& self.graph@.nodes.len() > 0
        &&& self.start == self.graph@.nodes[0]
        &&& exists|i: int| #[trigger]
            first_in_row(self.graph@.nodes, self.height - 1, i) && self.end == self.graph@.nodes[i]
    }

    /// Surveys the maze in a pixel buffer of `width` columns and `height`
    /// rows. The entrance is the first open cell of the first row; the exit
    /// is the node registered first among those of the last row.
    /// `BufferSizeMismatch` if the buffer does not hold one cell per pixel;
    /// else `NoEntrance` if the first row holds no open cell; else `NoExit`
    /// if the survey registers no node in the last row.
    pub fn from(image_buff: &Vec<u8>, width: u32, height: u32, is_greyscale: bool) -> (made: Result<
        OptMaze,
        MazeError,
    >)
        ensures
            ({
                let grid = grid_of(image_buff@, width as nat, height as nat, is_greyscale);
                let fits = fits(image_buff.len() as nat, width as nat, height as nat, is_greyscale);
                match made {
                    Ok(maze) => {
                        &&& fits
                        &&& maze.wf()
                        &&& maze.width == width
                        &&& maze.height == height
                        &&& grid.entrance(maze.start.vec_coord as int)
                        &&& maze.graph@ == compressed(grid, maze.start.vec_coord as int)
                        &&& charted(grid, maze.graph@)
                    },
                    Err(MazeError::BufferSizeMismatch) => !fits,
                    Err(MazeError::NoEntrance) => fits && grid.no_entrance(),
                    Err(MazeError::NoExit) => {
                        &&& fits
                        &&& exists|entrance: int|
                            grid.entrance(entrance) && none_in_row(
                                #[trigger] compressed(grid, entrance).nodes,
                                height - 1,
                            )
                    },
                    Err(MazeError::NoPath) => false,
                }
            }),
    {
        let count = match cell_count(image_buff.len(), width, height, is_greyscale) {
            Some(count) => count,
            None => {
                return Err(MazeError::BufferSizeMismatch);
            },
        };
        let ghost grid = grid_of(image_buff@, width as nat, height as nat, is_greyscale);
        if width == 0 || height == 0 {
            return Err(MazeError::NoEntrance);
        }
        proof {
            assert(0 < width * height) by (nonlinear_arith)
                requires
                    0 < width,
                    0 < height,
            ;
            lemma_positive_width(width as int, height as int);
        }
        let entrance = match first_open(image_buff, width, height, is_greyscale, 0, width as usize) {
            Some(entrance) => entrance,
            None => {
                return Err(MazeError::NoEntrance);
            },
        };
        let mut graph = Graph::new();
        let start = graph.add_node(entrance as u32, 0, entrance);
        let mut visited: Vec<bool> = vec![false; count];
        visited.set(entrance, true);
        let mut node_queue: Vec<usize> = Vec::new();
        node_queue.push(0);
        let ghost mut fuel: nat = count as nat;
        proof {
            lemma_index_row_col(width as int, entrance as int, 0);
            let first = Survey { graph: graph@, seen: visited@, pending: node_queue@ };
            assert(start == node_at(grid, entrance as int));
            assert(first.graph.nodes =~= seq![node_at(grid, entrance as int)]);
            assert(first.graph.links =~= seq![Seq::empty()]);
            assert(first.seen =~= Seq::new(grid.size() as nat, |i: int| false).update(
                entrance as int,
                true,
            ));
            assert(first.pending =~= seq![0usize]);
            assert(first == outset(grid, entrance as int));
        }
        while node_queue.len() > 0
            invariant
                fits(image_buff.len() as nat, width as nat, height as nat, is_greyscale),
                grid == grid_of(image_buff@, width as nat, height as nat, is_greyscale),
                count == width * height,
                orderly(grid, Survey { graph: graph@, seen: visited@, pending: node_queue@ }),
                fuel == count - graph@.nodes.len() + node_queue.len(),
                graph@.nodes.len() > 0,
                graph@.nodes[0] == start,
                survey_from(
                    grid,
                    Survey { graph: graph@, seen: visited@, pending: node_queue@ },
                    fuel,
                ) == compressed(grid, entrance as int),
            decreases count - graph.nodes.len(), node_queue.len(),
        {
            let ghost before = Survey { graph: graph@, seen: visited@, pending: node_queue@ };
            proof {
                lemma_orderly_count(grid, before);
            }
            let from = node_queue.pop().unwrap();
            proof {
                let taken = Survey { graph: graph@, seen: visited@, pending: node_queue@ };
                assert(before.pending[before.pending.len() - 1] < before.graph.nodes.len());
                assert(taken.pending =~= before.pending.drop_last());
                assert(below(taken.pending, taken.graph.nodes.len())) by {
                    assert forall|k: int| 0 <= k < taken.pending.len() implies #[trigger] taken.pending[k]
                        < taken.graph.nodes.len() by {
                        assert(before.pending[k] < before.graph.nodes.len());
                    }
                }
            }
            expand(
                image_buff,
                width,
                height,
                is_greyscale,
                &mut graph,
                &mut visited,
                &mut node_queue,
                from,
            );
            proof {
                let after = Survey { graph: graph@, seen: visited@, pending: node_queue@ };
                assert(after == expanded(grid, before));
                lemma_nodes_stay(grid, before, from);
                lemma_orderly_count(grid, after);
                fuel = (fuel - 1) as nat;
            }
        }
        let end = match Self::first_in_row(&graph, height - 1) {
            Some(at) => graph.nodes[at],
            None => {
                return Err(MazeError::NoExit);
            },
        };
        let maze = OptMaze { width, height, graph, start, end };
        proof {
            let last = Survey { graph: maze.graph@, seen: visited@, pending: node_queue@ };
            assert(orderly(grid, last));
            assert forall|i: int| 0 <= i < maze.graph@.nodes.len() implies {
                let node = #[trigger] maze.graph@.nodes[i];
                &&& node.x < maze.width
                &&& node.y < maze.height
                &&& node.vec_coord == node.y * maze.width + node.x
            } by {
                let node = last.graph.nodes[i];
                assert(node == node_at(grid, node.vec_coord as int));
                lemma_row_col(width as int, height as int, node.vec_coord as int);
            }
        }
        Ok(maze)
    }

    /// The first node of the graph that lies in row `row`.
    fn first_in_row(graph: &Graph, row: u32) -> (found: Option<usize>)
        ensures
            match found {
                Some(at) => first_in_row(graph@.nodes, row as int, at as int),
                None => none_in_row(graph@.nodes, row as int),
            },
    {
        let mut at: usize = 0;
        while at < graph.nodes.len()
            invariant
                at <= graph.nodes.len(),
                forall|j: int| 0 <= j < at ==> (#[trigger] graph@.nodes[j]).y != row,
            decreases graph.nodes.len() - at,
        {
            if graph.nodes[at].y == row {
                return Some(at);
            }
            at += 1;
        }
        None
    }
}

/// A walk leaves the nodes registered before it as they are.
pub proof fn lemma_explored_nodes(
    grid: Grid,
    survey: Survey,
    from: usize,
    toward: Direction,
    i: int,
)
    requires
        0 <= i < survey.graph.nodes.len(),
    ensures
        explored(grid, survey, from, toward).graph.nodes.len() >= survey.graph.nodes.len(),
        explored(grid, survey, from, toward).graph.nodes[i] == survey.graph.nodes[i],
{
}

/// Taking a node from the stack leaves the first node as it is.
pub proof fn lemma_nodes_stay(grid: Grid, survey: Survey, from: usize)
    requires
        survey.graph.nodes.len() > 0,
        survey.pending.len() > 0,
        from == survey.pending.last(),
    ensures
        expanded(grid, survey).graph.nodes.len() > 0,
        expanded(grid, survey).graph.nodes[0] == survey.graph.nodes[0],
{
    let taken = Survey {
        graph: survey.graph,
        seen: survey.seen,
        pending: survey.pending.drop_last(),
    };
    let left = explored(grid, taken, from, Direction::Left);
    lemma_explored_nodes(grid, taken, from, Direction::Left, 0);
    let right = explored(grid, left, from, Direction::Right);
    lemma_explored_nodes(grid, left, from, Direction::Right, 0);
    let up = explored(grid, right, from, Direction::Up);
    lemma_explored_nodes(grid, right, from, Direction::Up, 0);
    lemma_explored_nodes(grid, up, from, Direction::Down, 0);
}

} // verus!
