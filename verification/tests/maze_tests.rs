use pixmaze::grid::{cell_count, neighbor, Direction};
use pixmaze::maze::{Cell, Maze, MazeError};
use pixmaze::maze_solver::MazeSolver;
use pixmaze::paint::{convert_greyscale_buf_to_rgb, paint_cell, Color};
use pixmaze::pixel::is_path;
use std::collections::VecDeque;

fn grey(rows: &[&str]) -> (Vec<u8>, u32, u32) {
    let height = rows.len() as u32;
    let width = rows[0].len() as u32;
    let mut buffer = Vec::new();
    for row in rows {
        for cell in row.chars() {
            buffer.push(if cell == '.' { 255 } else { 0 });
        }
    }
    (buffer, width, height)
}

fn rgb(rows: &[&str]) -> (Vec<u8>, u32, u32) {
    let (buffer, width, height) = grey(rows);
    let mut wide = Vec::new();
    for value in buffer {
        wide.extend([value, value, value]);
    }
    (wide, width, height)
}

fn shortest_by_brute_force(rows: &[&str], from: usize, to: usize) -> Option<usize> {
    let (buffer, width, height) = grey(rows);
    let width = width as usize;
    let size = width * height as usize;
    let mut cells_on_way = vec![usize::MAX; size];
    cells_on_way[from] = 1;
    let mut changed = true;
    while changed {
        changed = false;
        for at in 0..size {
            if buffer[at] != 255 || cells_on_way[at] == usize::MAX {
                continue;
            }
            let mut around = Vec::new();
            if at >= width {
                around.push(at - width);
            }
            if at + width < size {
                around.push(at + width);
            }
            if at % width > 0 {
                around.push(at - 1);
            }
            if at % width + 1 < width {
                around.push(at + 1);
            }
            for next in around {
                if buffer[next] == 255 && cells_on_way[next] > cells_on_way[at] + 1 {
                    cells_on_way[next] = cells_on_way[at] + 1;
                    changed = true;
                }
            }
        }
    }
    if cells_on_way[to] == usize::MAX {
        None
    } else {
        Some(cells_on_way[to])
    }
}

fn way(path: &VecDeque<Cell>) -> Vec<(u32, u32)> {
    path.iter().map(|cell| (cell.x, cell.y)).collect()
}

const LOOPS: [&str; 7] = [
    "#.#####",
    "#.....#",
    "#.###.#",
    "#.#...#",
    "#.#.###",
    "#.....#",
    "#####.#",
];

const WINDING: [&str; 6] = [
    "###.####",
    "#......#",
    "#.####.#",
    "#.#....#",
    "#.#.####",
    "###.####",
];

const BLOCKED: [&str; 5] = [
    "#.###",
    "#.#.#",
    "###.#",
    "#...#",
    "#.###",
];

#[test]
fn is_path_reads_greyscale_cells() {
    let buffer = vec![255, 254, 0, 255];
    assert!(is_path(&buffer, 0, true));
    assert!(!is_path(&buffer, 1, true));
    assert!(!is_path(&buffer, 2, true));
    assert!(is_path(&buffer, 3, true));
}

#[test]
fn is_path_reads_three_channel_cells() {
    let buffer = vec![255, 255, 255, 255, 255, 254, 0, 255, 255, 255, 0, 255];
    assert!(is_path(&buffer, 0, false));
    assert!(!is_path(&buffer, 1, false));
    assert!(!is_path(&buffer, 2, false));
    assert!(!is_path(&buffer, 3, false));
}

#[test]
fn cell_count_checks_the_shape() {
    assert_eq!(cell_count(12, 3, 4, true), Some(12));
    assert_eq!(cell_count(36, 3, 4, false), Some(12));
    assert_eq!(cell_count(12, 3, 4, false), None);
    assert_eq!(cell_count(11, 3, 4, true), None);
    assert_eq!(cell_count(0, 0, 9, true), Some(0));
}

#[test]
fn neighbor_stays_in_the_grid() {
    assert_eq!(neighbor(4, Direction::Up, 3, 9), Some(1));
    assert_eq!(neighbor(4, Direction::Down, 3, 9), Some(7));
    assert_eq!(neighbor(4, Direction::Left, 3, 9), Some(3));
    assert_eq!(neighbor(4, Direction::Right, 3, 9), Some(5));
    assert_eq!(neighbor(1, Direction::Up, 3, 9), None);
    assert_eq!(neighbor(7, Direction::Down, 3, 9), None);
    assert_eq!(neighbor(3, Direction::Left, 3, 9), None);
    assert_eq!(neighbor(5, Direction::Right, 3, 9), None);
}

#[test]
fn cell_constructors() {
    let wall = Cell::new();
    assert!(wall.is_wall);
    assert_eq!((wall.x, wall.y, wall.vec_coord), (0, 0, 0));
    let cell = Cell::from(false, 2, 3, 17);
    assert!(!cell.is_wall);
    assert_eq!((cell.x, cell.y, cell.vec_coord), (2, 3, 17));
}

#[test]
fn cells_are_equal_by_place() {
    assert!(Cell::from(true, 1, 2, 5) == Cell::from(false, 1, 2, 9));
    assert!(Cell::from(true, 1, 2, 5) != Cell::from(true, 2, 1, 5));
}

#[test]
fn maze_from_numbers_the_cells_row_by_row() {
    let (buffer, width, height) = grey(&WINDING);
    let maze = Maze::from(&buffer, width, height, true).unwrap();
    assert_eq!((maze.width, maze.height), (8, 6));
    assert_eq!(maze.cells.len(), 48);
    for (at, cell) in maze.cells.iter().enumerate() {
        assert_eq!(cell.vec_coord, at);
        assert_eq!(cell.x as usize, at % 8);
        assert_eq!(cell.y as usize, at / 8);
        assert_eq!(cell.vec_coord, (cell.y * 8 + cell.x) as usize);
        assert_eq!(cell.is_wall, buffer[at] != 255);
    }
    assert_eq!((maze.start.x, maze.start.y, maze.start.vec_coord), (3, 0, 3));
    assert_eq!((maze.end.x, maze.end.y, maze.end.vec_coord), (3, 5, 43));
}

#[test]
fn maze_from_three_channels() {
    let (buffer, width, height) = rgb(&WINDING);
    let maze = Maze::from(&buffer, width, height, false).unwrap();
    assert_eq!(maze.start.vec_coord, 3);
    assert_eq!(maze.end.vec_coord, 43);
    assert!(!maze.cells[9].is_wall);
    assert!(maze.cells[8].is_wall);
}

#[test]
fn maze_from_takes_the_first_open_cell_of_each_boundary_row() {
    let (buffer, width, height) = grey(&["#.#.#", "#...#", "#.#.#"]);
    let maze = Maze::from(&buffer, width, height, true).unwrap();
    assert_eq!(maze.start.vec_coord, 1);
    assert_eq!(maze.end.vec_coord, 11);
}

#[test]
fn maze_from_searches_the_exit_in_the_last_row_of_a_wide_image() {
    let (buffer, width, height) = grey(&["#.######", "#......#", "######.#"]);
    let maze = Maze::from(&buffer, width, height, true).unwrap();
    assert_eq!((maze.end.x, maze.end.y), (6, 2));
    let (buffer, width, height) = grey(&["#.#", "#.#", "#.#", "#.#", "#.#"]);
    let maze = Maze::from(&buffer, width, height, true).unwrap();
    assert_eq!((maze.end.x, maze.end.y), (1, 4));
}

#[test]
fn maze_from_rejects_a_buffer_of_another_size() {
    let (buffer, width, height) = grey(&WINDING);
    assert_eq!(Maze::from(&buffer, width, height, false).err(), Some(MazeError::BufferSizeMismatch));
    assert_eq!(Maze::from(&buffer, width + 1, height, true).err(), Some(MazeError::BufferSizeMismatch));
    let (buffer, width, height) = rgb(&WINDING);
    assert_eq!(Maze::from(&buffer, width, height, true).err(), Some(MazeError::BufferSizeMismatch));
}

#[test]
fn maze_from_reports_a_missing_entrance() {
    let (buffer, width, height) = grey(&["###", "#.#", "#.#"]);
    assert_eq!(Maze::from(&buffer, width, height, true).err(), Some(MazeError::NoEntrance));
    assert_eq!(Maze::from(&Vec::new(), 0, 0, true).err(), Some(MazeError::NoEntrance));
    assert_eq!(Maze::from(&Vec::new(), 4, 0, true).err(), Some(MazeError::NoEntrance));
}

#[test]
fn maze_from_reports_a_missing_exit() {
    let (buffer, width, height) = grey(&["#.#", "#.#", "###"]);
    assert_eq!(Maze::from(&buffer, width, height, true).err(), Some(MazeError::NoExit));
}

#[test]
fn coords_to_vec_location_is_row_times_width_plus_column() {
    let (buffer, width, height) = grey(&WINDING);
    let maze = Maze::from(&buffer, width, height, true).unwrap();
    assert_eq!(maze.coords_to_vec_location(0, 0), 0);
    assert_eq!(maze.coords_to_vec_location(3, 2), 19);
    assert_eq!(maze.coords_to_vec_location(7, 5), 47);
}

#[test]
fn get_neighbors_gives_open_unvisited_cells_in_order() {
    let (buffer, width, height) = grey(&["#.#", "...", "#.#"]);
    let maze = Maze::from(&buffer, width, height, true).unwrap();
    let mut visited = vec![false; 9];
    let around: Vec<usize> =
        maze.get_neighbors(&maze.cells[4], &visited).iter().map(|cell| cell.vec_coord).collect();
    assert_eq!(around, vec![1, 7, 3, 5]);
    visited[7] = true;
    visited[3] = true;
    let around: Vec<usize> =
        maze.get_neighbors(&maze.cells[4], &visited).iter().map(|cell| cell.vec_coord).collect();
    assert_eq!(around, vec![1, 5]);
    let around = maze.get_neighbors(&maze.cells[1], &visited);
    assert_eq!(around.len(), 1);
    assert_eq!(around[0].vec_coord, 4);
    let around = maze.get_neighbors(&maze.cells[3], &vec![false; 9]);
    assert_eq!(around.len(), 1);
    assert_eq!(around[0].vec_coord, 4);
}

#[test]
fn bfs_follows_a_straight_corridor() {
    for length in 1..7usize {
        let rows: Vec<&str> = vec!["#.#"; length];
        let (buffer, width, height) = grey(&rows);
        let maze = Maze::from(&buffer, width, height, true).unwrap();
        let path = maze.bfs().unwrap();
        assert_eq!(path.len(), length);
        for (step, cell) in path.iter().enumerate() {
            assert_eq!((cell.x, cell.y), (1, step as u32));
        }
    }
}

#[test]
fn bfs_gives_the_path_of_a_winding_maze() {
    let (buffer, width, height) = grey(&WINDING);
    let maze = Maze::from(&buffer, width, height, true).unwrap();
    let path = maze.bfs().unwrap();
    assert_eq!(
        way(&path),
        vec![
            (3, 0),
            (3, 1),
            (4, 1),
            (5, 1),
            (6, 1),
            (6, 2),
            (6, 3),
            (5, 3),
            (4, 3),
            (3, 3),
            (3, 4),
            (3, 5)
        ]
    );
}

#[test]
fn bfs_path_is_as_short_as_brute_force_finds() {
    let fixtures: [&[&str]; 4] = [&LOOPS, &WINDING, &["#.#", "...", "#.#"], &[".....", ".....", "....."]];
    for rows in fixtures {
        let (buffer, width, height) = grey(rows);
        let maze = Maze::from(&buffer, width, height, true).unwrap();
        let path = maze.bfs().unwrap();
        let expected =
            shortest_by_brute_force(rows, maze.start.vec_coord, maze.end.vec_coord).unwrap();
        assert_eq!(path.len(), expected);
        assert_eq!(path[0].vec_coord, maze.start.vec_coord);
        assert_eq!(path[path.len() - 1].vec_coord, maze.end.vec_coord);
        for step in 1..path.len() {
            let (a, b) = (path[step - 1], path[step]);
            assert!(!b.is_wall);
            assert_eq!(a.x.abs_diff(b.x) + a.y.abs_diff(b.y), 1);
        }
    }
}

#[test]
fn bfs_of_the_maze_with_loops_has_eleven_cells() {
    let (buffer, width, height) = grey(&LOOPS);
    let maze = Maze::from(&buffer, width, height, true).unwrap();
    assert_eq!(maze.bfs().unwrap().len(), 11);
}

#[test]
fn bfs_goes_down_rather_than_right_where_both_are_shortest() {
    let (buffer, width, height) = grey(&["..#", "...", "#.."]);
    let maze = Maze::from(&buffer, width, height, true).unwrap();
    assert_eq!(maze.end.vec_coord, 7);
    assert_eq!(way(&maze.bfs().unwrap()), vec![(0, 0), (0, 1), (1, 1), (1, 2)]);
}

#[test]
fn bfs_goes_left_rather_than_right_where_both_are_shortest() {
    let (buffer, width, height) = grey(&["#.#", "...", ".#.", "...", "#.#"]);
    let maze = Maze::from(&buffer, width, height, true).unwrap();
    assert_eq!(
        way(&maze.bfs().unwrap()),
        vec![(1, 0), (1, 1), (0, 1), (0, 2), (0, 3), (1, 3), (1, 4)]
    );
}

#[test]
fn bfs_reports_that_no_path_exists() {
    let (buffer, width, height) = grey(&BLOCKED);
    let maze = Maze::from(&buffer, width, height, true).unwrap();
    assert_eq!(shortest_by_brute_force(&BLOCKED, maze.start.vec_coord, maze.end.vec_coord), None);
    assert_eq!(maze.bfs().err(), Some(MazeError::NoPath));
}

#[test]
fn bfs_where_entrance_and_exit_are_one_cell() {
    let (buffer, width, height) = grey(&["##.#"]);
    let maze = Maze::from(&buffer, width, height, true).unwrap();
    assert_eq!(way(&maze.bfs().unwrap()), vec![(2, 0)]);
}

#[test]
fn bfs_reaches_a_cell_with_index_zero() {
    let (buffer, width, height) = grey(&[".#", "..", "#."]);
    let maze = Maze::from(&buffer, width, height, true).unwrap();
    assert_eq!(maze.start.vec_coord, 0);
    assert_eq!(way(&maze.bfs().unwrap()), vec![(0, 0), (0, 1), (1, 1), (1, 2)]);
}

#[test]
fn convert_greyscale_makes_open_cells_white_and_others_black() {
    let converted = convert_greyscale_buf_to_rgb(&vec![255, 0, 254, 255]);
    assert_eq!(converted, vec![255, 255, 255, 0, 0, 0, 0, 0, 0, 255, 255, 255]);
    assert!(convert_greyscale_buf_to_rgb(&Vec::new()).is_empty());
}

#[test]
fn paint_cell_sets_three_bytes() {
    let mut buffer = vec![9; 9];
    paint_cell(&mut buffer, 1, Color { red: 1, green: 2, blue: 3 });
    assert_eq!(buffer, vec![9, 9, 9, 1, 2, 3, 9, 9, 9]);
}

#[test]
fn solver_keeps_the_buffer_and_starts_unsolved() {
    let (buffer, width, height) = grey(&WINDING);
    let solver = MazeSolver::from(buffer.clone(), width, height, true).unwrap();
    assert_eq!(solver.image_buffer, buffer);
    assert!(solver.is_buffer_greyscale);
    assert!(solver.solved.is_empty());
    assert_eq!(solver.maze.start.vec_coord, 3);
}

#[test]
fn solver_passes_on_the_errors_of_the_maze() {
    assert_eq!(MazeSolver::from(vec![0; 5], 2, 2, true).err(), Some(MazeError::BufferSizeMismatch));
    assert_eq!(MazeSolver::from(vec![0; 4], 2, 2, true).err(), Some(MazeError::NoEntrance));
    assert_eq!(MazeSolver::from(vec![255, 0, 0, 0], 2, 2, true).err(), Some(MazeError::NoExit));
}

#[test]
fn solver_solve_keeps_the_shortest_path() {
    let (buffer, width, height) = grey(&WINDING);
    let mut solver = MazeSolver::from(buffer, width, height, true).unwrap();
    assert_eq!(solver.solve(), Ok(()));
    assert_eq!(solver.solved.len(), 12);
    assert_eq!(solver.solved[0].vec_coord, 3);
    assert_eq!(solver.solved[11].vec_coord, 43);
}

#[test]
fn solver_solve_reports_no_path() {
    let (buffer, width, height) = grey(&BLOCKED);
    let mut solver = MazeSolver::from(buffer, width, height, true).unwrap();
    assert_eq!(solver.solve(), Err(MazeError::NoPath));
    assert!(solver.solved.is_empty());
}

#[test]
fn solver_converts_its_greyscale_buffer() {
    let (buffer, width, height) = grey(&["#.", "#."]);
    let mut solver = MazeSolver::from(buffer, width, height, true).unwrap();
    solver.convert_greyscale_buf_to_rgb();
    assert!(!solver.is_buffer_greyscale);
    assert_eq!(solver.image_buffer, vec![0, 0, 0, 255, 255, 255, 0, 0, 0, 255, 255, 255]);
}

#[test]
fn solved_path_is_drawn_at_its_cells_and_nowhere_else() {
    let rows = ["#.###", "#...#", "###.#", "#...#", "#.###"];
    let (buffer, width, height) = rgb(&rows);
    let mut solver = MazeSolver::from(buffer.clone(), width, height, false).unwrap();
    assert_eq!(solver.solve(), Ok(()));
    let cells: Vec<usize> = solver.solved.iter().map(|cell| cell.vec_coord).collect();
    assert_eq!(cells, vec![1, 6, 7, 8, 13, 18, 17, 16, 21]);
    solver.apply_solved_maze_to_buf();
    assert_eq!(solver.image_buffer.len(), buffer.len());
    for at in 0..25 {
        let now = &solver.image_buffer[3 * at..3 * at + 3];
        if cells.contains(&at) {
            assert_eq!(now, &[0, 0, 255]);
        } else {
            assert_eq!(now, &buffer[3 * at..3 * at + 3]);
        }
    }
}

#[test]
fn render_converts_a_greyscale_buffer_before_drawing() {
    let (buffer, width, height) = grey(&["#.#", "#.#"]);
    let mut solver = MazeSolver::from(buffer, width, height, true).unwrap();
    assert_eq!(solver.solve(), Ok(()));
    solver.render();
    assert!(!solver.is_buffer_greyscale);
    assert_eq!(
        solver.image_buffer,
        vec![0, 0, 0, 0, 0, 255, 0, 0, 0, 0, 0, 0, 0, 0, 255, 0, 0, 0]
    );
}
