//! Mazes read from bitmaps.
//!
//! A pixel buffer, in greyscale or in three channels, stands for a grid of
//! open cells and walls. The maze has its entrance in the first row and its
//! exit in the last.
//!
//! - `pixel` tells open cells from walls, `grid` holds the grid that a
//!   buffer stands for, with its neighbours, paths and corridors.
//! - `maze` is the dense maze, one record per cell, with the breadth-first
//!   search for the shortest path; `search` and `turns` hold what the search
//!   keeps and the order in which it prefers one shortest path to another.
//! - `graph` is a directed graph with weighted edges, `traversal` its
//!   breadth-first and depth-first traversal.
//! - `opt_maze` compresses a maze to the graph of its junctions and
//!   corridors; `straight` shows what becomes of a single corridor.
//! - `maze_solver`, `paint` and `drawing` draw a solution or a graph back
//!   into a pixel buffer.

pub mod drawing;
pub mod graph;
pub mod grid;
pub mod maze;
pub mod maze_solver;
pub mod opt_maze;
pub mod paint;
pub mod pixel;
pub mod search;
pub mod straight;
pub mod traversal;
pub mod turns;
