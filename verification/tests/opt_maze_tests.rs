use pixmaze::graph::Edge;
use pixmaze::maze::MazeError;
use pixmaze::opt_maze::{get_neighbors, xy_to_image_buff_location, Neighbors, OptMaze};

fn pixels(rows: &[&str]) -> (Vec<u8>, u32, u32) {
    let height = rows.len() as u32;
    let width = rows[0].len() as u32;
    let mut buffer = Vec::new();
    for row in rows {
        for cell in row.chars() {
            buffer.push(if cell == '.' { 255 } else { 0 });
        }
    }
    (buffer, width, height)
}

fn colours(rows: &[&str]) -> (Vec<u8>, u32, u32) {
    let (buffer, width, height) = pixels(rows);
    let mut wide = Vec::new();
    for value in buffer {
        wide.extend([value, value, value]);
    }
    (wide, width, height)
}

fn node_places(maze: &OptMaze) -> Vec<(u32, u32, usize)> {
    maze.graph.nodes.iter().map(|node| (node.x, node.y, node.vec_coord)).collect()
}

fn all_edges(maze: &OptMaze) -> Vec<(usize, usize, u32)> {
    let mut edges = Vec::new();
    for list in &maze.graph.edges {
        for edge in list {
            edges.push((edge.from, edge.to, edge.weight));
        }
    }
    edges
}

const FORKED: [&str; 5] = [
    "#.###",
    "#...#",
    "#.#.#",
    "#.#.#",
    "###.#",
];

const RING: [&str; 5] = [
    "#.###",
    "#...#",
    "#.#.#",
    "#...#",
    "###.#",
];

#[test]
fn xy_to_image_buff_location_is_row_times_width_plus_column() {
    assert_eq!(xy_to_image_buff_location(0, 0, 7), 0);
    assert_eq!(xy_to_image_buff_location(3, 2, 7), 17);
    assert_eq!(xy_to_image_buff_location(6, 1, 7), 13);
}

#[test]
fn get_neighbors_tells_open_unvisited_neighbours() {
    let (buffer, width, height) = pixels(&["#.#", "...", "#.#"]);
    let mut visited = vec![false; 9];
    assert_eq!(
        get_neighbors(1, 1, &buffer, &visited, width, height, true),
        Neighbors { above: true, below: true, left: true, right: true }
    );
    visited[1] = true;
    visited[5] = true;
    assert_eq!(
        get_neighbors(1, 1, &buffer, &visited, width, height, true),
        Neighbors { above: false, below: true, left: true, right: false }
    );
    assert_eq!(
        get_neighbors(0, 0, &buffer, &vec![false; 9], width, height, true),
        Neighbors { above: false, below: true, left: false, right: true }
    );
    assert_eq!(
        get_neighbors(2, 2, &buffer, &vec![false; 9], width, height, true),
        Neighbors { above: true, below: false, left: true, right: false }
    );
}

#[test]
fn straight_corridor_compresses_to_one_edge() {
    for length in 2..9u32 {
        let rows: Vec<&str> = vec!["##.#"; length as usize];
        let (buffer, width, height) = pixels(&rows);
        let maze = OptMaze::from(&buffer, width, height, true).unwrap();
        assert_eq!(
            node_places(&maze),
            vec![(2, 0, 2), (2, length - 1, (4 * (length - 1) + 2) as usize)]
        );
        assert_eq!(all_edges(&maze), vec![(0, 1, length - 1)]);
        assert_eq!((maze.start.x, maze.start.y), (2, 0));
        assert_eq!((maze.end.x, maze.end.y), (2, length - 1));
    }
}

#[test]
fn single_cell_corridor_is_one_node() {
    let (buffer, width, height) = pixels(&["#.#"]);
    let maze = OptMaze::from(&buffer, width, height, true).unwrap();
    assert_eq!(node_places(&maze), vec![(1, 0, 1)]);
    assert!(all_edges(&maze).is_empty());
    assert_eq!(maze.end.vec_coord, 1);
}

#[test]
fn forked_maze_has_a_node_per_junction_and_dead_end() {
    let (buffer, width, height) = pixels(&FORKED);
    let maze = OptMaze::from(&buffer, width, height, true).unwrap();
    assert_eq!((maze.width, maze.height), (5, 5));
    assert_eq!(
        node_places(&maze),
        vec![(1, 0, 1), (1, 1, 6), (3, 1, 8), (1, 3, 16), (3, 4, 23)]
    );
    assert_eq!(all_edges(&maze), vec![(0, 1, 1), (1, 2, 2), (1, 3, 2), (2, 4, 3)]);
    assert_eq!(maze.start.vec_coord, 1);
    assert_eq!(maze.end.vec_coord, 23);
}

#[test]
fn forked_maze_in_three_channels() {
    let (buffer, width, height) = colours(&FORKED);
    let maze = OptMaze::from(&buffer, width, height, false).unwrap();
    assert_eq!(maze.graph.nodes.len(), 5);
    assert_eq!(all_edges(&maze), vec![(0, 1, 1), (1, 2, 2), (1, 3, 2), (2, 4, 3)]);
}

#[test]
fn walk_that_meets_a_seen_cell_links_to_its_node() {
    let (buffer, width, height) = pixels(&RING);
    let maze = OptMaze::from(&buffer, width, height, true).unwrap();
    assert_eq!(
        node_places(&maze),
        vec![(1, 0, 1), (1, 1, 6), (3, 1, 8), (1, 3, 16), (3, 3, 18), (3, 4, 23)]
    );
    assert_eq!(
        all_edges(&maze),
        vec![(0, 1, 1), (1, 2, 2), (1, 3, 2), (3, 4, 2), (4, 2, 2), (4, 5, 1)]
    );
    assert_eq!(maze.end.vec_coord, 23);
}

#[test]
fn every_edge_weighs_the_steps_between_its_nodes() {
    for rows in [&FORKED, &RING] {
        let (buffer, width, height) = pixels(rows);
        let maze = OptMaze::from(&buffer, width, height, true).unwrap();
        for (from, to, weight) in all_edges(&maze) {
            let (a, b) = (maze.graph.nodes[from], maze.graph.nodes[to]);
            assert!(a.x == b.x || a.y == b.y);
            assert_eq!(a.x.abs_diff(b.x) + a.y.abs_diff(b.y), weight);
        }
    }
}

#[test]
fn exit_is_the_first_registered_node_of_the_last_row() {
    let (buffer, width, height) = pixels(&["#.###", "#...#", "#.#.#"]);
    let maze = OptMaze::from(&buffer, width, height, true).unwrap();
    assert_eq!(
        node_places(&maze),
        vec![(1, 0, 1), (1, 1, 6), (3, 1, 8), (1, 2, 11), (3, 2, 13)]
    );
    assert_eq!((maze.end.x, maze.end.y), (1, 2));
}

#[test]
fn opt_maze_rejects_a_buffer_of_another_size() {
    let (buffer, width, height) = pixels(&FORKED);
    assert_eq!(
        OptMaze::from(&buffer, width, height, false).err(),
        Some(MazeError::BufferSizeMismatch)
    );
    assert_eq!(
        OptMaze::from(&buffer, width, height + 1, true).err(),
        Some(MazeError::BufferSizeMismatch)
    );
}

#[test]
fn opt_maze_reports_a_missing_entrance() {
    let (buffer, width, height) = pixels(&["###", "#.#", "#.#"]);
    assert_eq!(OptMaze::from(&buffer, width, height, true).err(), Some(MazeError::NoEntrance));
    assert_eq!(OptMaze::from(&Vec::new(), 0, 3, true).err(), Some(MazeError::NoEntrance));
}

#[test]
fn opt_maze_accepts_an_entrance_in_the_first_column() {
    let (buffer, width, height) = pixels(&[".##", ".##"]);
    let maze = OptMaze::from(&buffer, width, height, true).unwrap();
    assert_eq!(node_places(&maze), vec![(0, 0, 0), (0, 1, 3)]);
    assert_eq!(all_edges(&maze), vec![(0, 1, 1)]);
}

#[test]
fn opt_maze_reports_a_missing_exit() {
    let (buffer, width, height) = pixels(&["#.#", "#.#", "###"]);
    assert_eq!(OptMaze::from(&buffer, width, height, true).err(), Some(MazeError::NoExit));
}

#[test]
fn render_draws_nodes_and_corridors() {
    let rows = ["#.#", "#.#", "#.#", "#.#"];
    let (mut buffer, width, height) = colours(&rows);
    let maze = OptMaze::from(&buffer, width, height, false).unwrap();
    let before = buffer.clone();
    maze.render(&mut buffer);
    for at in 0..12usize {
        let now = &buffer[3 * at..3 * at + 3];
        match at {
            1 | 10 => assert_eq!(now, &[0, 0, 255]),
            4 | 7 => assert_eq!(now, &[255, 0, 0]),
            _ => assert_eq!(now, &before[3 * at..3 * at + 3]),
        }
    }
}

#[test]
fn render_colours_corridors_by_direction() {
    let rows = ["###.###", "#.....#", "#.###.#", "#.#...#", "#.#####"];
    let (mut buffer, width, height) = colours(&rows);
    let mut maze = OptMaze::from(&buffer, width, height, false).unwrap();
    assert_eq!(
        node_places(&maze),
        vec![(3, 0, 3), (3, 1, 10), (1, 1, 8), (5, 1, 12), (5, 3, 26), (3, 3, 24), (1, 4, 29)]
    );
    assert_eq!(
        all_edges(&maze),
        vec![(0, 1, 1), (1, 2, 2), (1, 3, 2), (2, 6, 3), (3, 4, 2), (4, 5, 2)]
    );
    maze.graph.add_edge_by_index(6, 2, 3).unwrap();
    maze.render(&mut buffer);
    let cell = |at: usize| [buffer[3 * at], buffer[3 * at + 1], buffer[3 * at + 2]];
    for node in [3, 10, 8, 12, 26, 24, 29] {
        assert_eq!(cell(node), [0, 0, 255]);
    }
    assert_eq!(cell(9), [255, 0, 255]);
    assert_eq!(cell(11), [255, 255, 0]);
    assert_eq!(cell(19), [255, 0, 0]);
    assert_eq!(cell(25), [255, 0, 255]);
    assert_eq!(cell(15), [128, 0, 0]);
    assert_eq!(cell(22), [128, 0, 0]);
    assert_eq!(cell(0), [0, 0, 0]);
}

#[test]
fn edge_values_compare_by_all_fields() {
    assert_ne!(Edge::from(0, 1, 2), Edge::from(0, 1, 3));
}
