//! Drawing the graph of a compressed maze into a three-channel pixel buffer.

use crate::graph::{Edge, GraphModel, Node};
use crate::grid::{fits, lemma_cell_inside, Direction};
use crate::opt_maze::{xy_to_image_buff_location, OptMaze};
use crate::paint::{lemma_painted_push, paint_cell, painted, Color};
use vstd::prelude::*;

verus! {

/// The colour in which a node is drawn.
pub open spec fn junction_color() -> Color {
    Color { red: 0, green: 0, blue: 255 }
}

/// The colour in which the cells of a corridor are drawn, by the direction
/// in which the corridor leaves its first node.
pub open spec fn corridor_color(toward: Direction) -> Color {
    match toward {
        Direction::Up => Color { red: 128, green: 0, blue: 0 },
        Direction::Down => Color { red: 255, green: 0, blue: 0 },
        Direction::Left => Color { red: 255, green: 0, blue: 255 },
        Direction::Right => Color { red: 255, green: 255, blue: 0 },
    }
}

/// The direction in which an edge is drawn: along the column where its two
/// nodes share one, else along the row of the first.
pub open spec fn heading(from: Node, to: Node) -> Direction {
    if to.x == from.x {
        if to.y < from.y {
            Direction::Up
        } else {
            Direction::Down
        }
    } else if to.x < from.x {
        Direction::Left
    } else {
        Direction::Right
    }
}

/// The number of steps over which an edge is drawn.
pub open spec fn span(from: Node, to: Node) -> int {
    match heading(from, to) {
        Direction::Up => from.y - to.y,
        Direction::Down => to.y - from.y,
        Direction::Left => from.x - to.x,
        Direction::Right => to.x - from.x,
    }
}

/// The index of the cell `steps` steps from `from` in the given direction.
pub open spec fn cell_toward(width: int, from: Node, toward: Direction, steps: int) -> int {
    match toward {
        Direction::Up => (from.y - steps) * width + from.x,
        Direction::Down => (from.y + steps) * width + from.x,
        Direction::Left => from.y * width + (from.x - steps),
        Direction::Right => from.y * width + (from.x + steps),
    }
}

/// The cells that are drawn for an edge: those that lie between its nodes.
pub open spec fn interior(width: int, from: Node, to: Node) -> Seq<usize> {
    let count = span(from, to) - 1;
    Seq::new(
        if count > 0 {
            count as nat
        } else {
            0
        },
        |j: int| cell_toward(width, from, heading(from, to), j + 1) as usize,
    )
}

/// The cells of the nodes.
pub open spec fn node_cells(nodes: Seq<Node>) -> Seq<usize> {
    nodes.map_values(|node: Node| node.vec_coord)
}

/// The buffer after the edges of one list are drawn, in their order.
pub open spec fn drawn_edges(buffer: Seq<u8>, width: int, nodes: Seq<Node>, edges: Seq<Edge>) -> Seq<
    u8,
>
    decreases edges.len(),
{
    if edges.len() == 0 {
        buffer
    } else {
        let from = nodes[edges.last().from as int];
        let to = nodes[edges.last().to as int];
        painted(
            drawn_edges(buffer, width, nodes, edges.drop_last()),
            interior(width, from, to),
            corridor_color(heading(from, to)),
        )
    }
}

/// The buffer after the edges of all lists are drawn, list by list.
pub open spec fn drawn_lists(
    buffer: Seq<u8>,
    width: int,
    nodes: Seq<Node>,
    links: Seq<Seq<Edge>>,
) -> Seq<u8>
    decreases links.len(),
{
    if links.len() == 0 {
        buffer
    } else {
        drawn_edges(
            drawn_lists(buffer, width, nodes, links.drop_last()),
            width,
            nodes,
            links.last(),
        )
    }
}

/// The buffer with the graph drawn into it: first every node, then the
/// cells between the two nodes of every edge; what is drawn later covers
/// what was drawn before.
pub open spec fn drawn(buffer: Seq<u8>, width: int, graph: GraphModel) -> Seq<u8> {
    drawn_lists(
        painted(buffer, node_cells(graph.nodes), junction_color()),
        width,
        graph.nodes,
        graph.links,
    )
}

impl OptMaze {
    /// Draws the cells between the two nodes of an edge.
    fn draw_edge(&self, image_buffer: &mut Vec<u8>, from: Node, to: Node)
        requires
            self.width * self.height <= usize::MAX,
            old(image_buffer).len() == 3 * (self.width * self.height),
            from.x < self.width,
            from.y < self.height,
            to.x < self.width,
            to.y < self.height,
        ensures
            final(image_buffer)@ == painted(
                old(image_buffer)@,
                interior(self.width as int, from, to),
                corridor_color(heading(from, to)),
            ),
    {
        let ghost base = image_buffer@;
        let ghost cells = interior(self.width as int, from, to);
        let (toward, steps, color) = if to.x == from.x {
            if to.y < from.y {
                (Direction::Up, from.y - to.y, Color { red: 128, green: 0, blue: 0 })
            } else {
                (Direction::Down, to.y - from.y, Color { red: 255, green: 0, blue: 0 })
            }
        } else if to.x < from.x {
            (Direction::Left, from.x - to.x, Color { red: 255, green: 0, blue: 255 })
        } else {
            (Direction::Right, to.x - from.x, Color { red: 255, green: 255, blue: 0 })
        };
        let mut i: u32 = 1;
        assert(image_buffer@ =~= painted(base, cells.take(0), color));
        while i < steps
            invariant
                1 <= i,
                i <= steps || i == 1,
                self.width * self.height <= usize::MAX,
                image_buffer.len() == 3 * (self.width * self.height),
                base.len() == image_buffer.len(),
                from.x < self.width,
                from.y < self.height,
                to.x < self.width,
                to.y < self.height,
                toward == heading(from, to),
                steps == span(from, to),
                color == corridor_color(toward),
                cells == interior(self.width as int, from, to),
                base == old(image_buffer)@,
                image_buffer@ == painted(base, cells.take(i - 1), color),
            decreases steps - i,
        {
            let (x, y) = match toward {
                Direction::Up => (from.x, from.y - i),
                Direction::Down => (from.x, from.y + i),
                Direction::Left => (from.x - i, from.y),
                Direction::Right => (from.x + i, from.y),
            };
            proof {
                lemma_cell_inside(self.width as int, self.height as int, x as int, y as int);
            }
            let at = xy_to_image_buff_location(x, y, self.width);
            proof {
                assert(cells[i - 1] == at);
                lemma_painted_push(base, cells.take(i - 1), at, color);
                assert(cells.take(i as int) =~= cells.take(i - 1).push(at));
            }
            paint_cell(image_buffer, at, color);
            i += 1;
        }
        assert(cells.take(i - 1) =~= cells);
    }

    /// Draws the graph into a three-channel buffer of the maze's shape:
    /// every node in the colour of junctions, then for every edge the cells
    /// between its two nodes in the colour of its direction.
    pub fn render(&self, image_buffer: &mut Vec<u8>)
        requires
            self.wf(),
            fits(old(image_buffer).len() as nat, self.width as nat, self.height as nat, false),
        ensures
            final(image_buffer)@ == drawn(old(image_buffer)@, self.width as int, self.graph@),
    {
        let ghost graph = self.graph@;
        let ghost base = image_buffer@;
        let ghost cells = node_cells(graph.nodes);
        let blue = Color { red: 0, green: 0, blue: 255 };
        let count = self.graph.nodes.len();
        let mut n: usize = 0;
        assert(image_buffer@ =~= painted(base, cells.take(0), blue));
        while n < count
            invariant
                n <= count,
                count == self.graph.nodes.len(),
                self.wf(),
                graph == self.graph@,
                cells == node_cells(graph.nodes),
                blue == junction_color(),
                image_buffer.len() == 3 * (self.width * self.height),
                base.len() == image_buffer.len(),
                base == old(image_buffer)@,
                image_buffer@ == painted(base, cells.take(n as int), blue),
            decreases count - n,
        {
            let node = self.graph.nodes[n];
            proof {
                assert(node == graph.nodes[n as int]);
                lemma_cell_inside(
                    self.width as int,
                    self.height as int,
                    node.x as int,
                    node.y as int,
                );
                assert(cells[n as int] == node.vec_coord);
                lemma_painted_push(base, cells.take(n as int), node.vec_coord, blue);
                assert(cells.take(n + 1) =~= cells.take(n as int).push(node.vec_coord));
            }
            paint_cell(image_buffer, node.vec_coord, blue);
            n += 1;
        }
        assert(cells.take(count as int) =~= cells);
        let ghost dotted = image_buffer@;
        let mut i: usize = 0;
        while i < count
            invariant
                i <= count,
                count == self.graph.nodes.len(),
                self.wf(),
                graph == self.graph@,
                image_buffer.len() == 3 * (self.width * self.height),
                dotted.len() == image_buffer.len(),
                image_buffer@ == drawn_lists(
                    dotted,
                    self.width as int,
                    graph.nodes,
                    graph.links.take(i as int),
                ),
            decreases count - i,
        {
            let ghost before_list = image_buffer@;
            let degree = self.graph.edges[i].len();
            let mut k: usize = 0;
            while k < degree
                invariant
                    k <= degree,
                    i < count,
                    count == self.graph.nodes.len(),
                    degree == self.graph.edges[i as int].len(),
                    self.wf(),
                    graph == self.graph@,
                    image_buffer.len() == 3 * (self.width * self.height),
                    before_list.len() == image_buffer.len(),
                    image_buffer@ == drawn_edges(
                        before_list,
                        self.width as int,
                        graph.nodes,
                        graph.links[i as int].take(k as int),
                    ),
                decreases degree - k,
            {
                let edge = self.graph.edges[i][k];
                proof {
                    assert(graph.links[i as int][k as int] == edge);
                    assert(graph.canonical(edge.to as int));
                    assert(edge.from == i);
                }
                let from = self.graph.nodes[edge.from];
                let to = self.graph.nodes[edge.to];
                proof {
                    assert(from == graph.nodes[edge.from as int]);
                    assert(to == graph.nodes[edge.to as int]);
                    let list = graph.links[i as int];
                    assert(list.take(k + 1).drop_last() =~= list.take(k as int));
                    assert(list.take(k + 1).last() == edge);
                }
                self.draw_edge(image_buffer, from, to);
                k += 1;
            }
            proof {
                let list = graph.links[i as int];
                assert(list.take(degree as int) =~= list);
                assert(graph.links.take(i + 1).drop_last() =~= graph.links.take(i as int));
                assert(graph.links.take(i + 1).last() == list);
            }
            i += 1;
        }
        assert(graph.links.take(count as int) =~= graph.links);
    }
}

} // verus!
