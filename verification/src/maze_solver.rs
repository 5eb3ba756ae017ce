//! A maze together with the image it was read from, and the image with the
//! solution drawn into it.

use crate::grid::{fits, grid_of};
use crate::maze::{indices, Cell, Maze, MazeError};
use crate::paint::{lemma_painted_push, paint_cell, painted, to_rgb, Color};
use std::collections::VecDeque;
use vstd::prelude::*;

verus! {

/// The colour of the cells of a solution.
pub open spec fn path_color() -> Color {
    Color { red: 0, green: 0, blue: 255 }
}

/// A maze, the pixel buffer it was read from, and the solution once it has
/// been found.
pub struct MazeSolver {
    pub maze: Maze,
    pub image_buffer: Vec<u8>,
    pub is_buffer_greyscale: bool,
    pub solved: VecDeque<Cell>,
}

impl MazeSolver {
    /// The invariant of a solver: the maze is well formed, the buffer holds
    /// one cell per cell of the maze, and the solution holds cells of the
    /// maze.
    pub open spec fn wf(&self) -> bool {
        &&& self.maze.wf()
        &&& fits(
            self.image_buffer.len() as nat,
            self.maze.width as nat,
            self.maze.height as nat,
            self.is_buffer_greyscale,
        )
        &&& self.maze.holds(self.solved@)
    }

    /// Reads the maze from a pixel buffer of `width` columns and `height`
    /// rows, and keeps the buffer. Nothing is solved yet. The errors are
    /// those of `Maze::from`.
    pub fn from(image_buffer: Vec<u8>, width: u32, height: u32, is_greyscale: bool) -> (made: Result<
        MazeSolver,
        MazeError,
    >)
        ensures
            ({
                let grid = grid_of(image_buffer@, width as nat, height as nat, is_greyscale);
                let fits = fits(image_buffer.len() as nat, width as nat, height as nat, is_greyscale);
                match made {
                    Ok(solver) => {
                        &&& fits
                        &&& solver.wf()
                        &&& solver.maze.width == width
                        &&& solver.maze.height == height
                        &&& solver.maze@ == grid
                        &&& solver.image_buffer@ == image_buffer@
                        &&& solver.is_buffer_greyscale == is_greyscale
                        &&& solver.solved@ == Seq::<Cell>::empty()
                    },
                    Err(MazeError::BufferSizeMismatch) => !fits,
                    Err(MazeError::NoEntrance) => fits && grid.no_entrance(),
                    Err(MazeError::NoExit) => fits && !grid.no_entrance() && grid.no_exit(),
                    Err(MazeError::NoPath) => false,
                }
            }),
    {
        match Maze::from(&image_buffer, width, height, is_greyscale) {
            Ok(maze) => Ok(
                MazeSolver {
                    maze,
                    image_buffer,
                    is_buffer_greyscale: is_greyscale,
                    solved: VecDeque::new(),
                },
            ),
            Err(error) => Err(error),
        }
    }

    /// Finds a shortest path from the entrance to the exit and keeps it as
    /// the solution. `NoPath` if there is none; the solution is then left as
    /// it was.
    pub fn solve(&mut self) -> (done: Result<(), MazeError>)
        requires
            old(self).wf(),
        ensures
            final(self).wf(),
            final(self).maze == old(self).maze,
            final(self).image_buffer == old(self).image_buffer,
            final(self).is_buffer_greyscale == old(self).is_buffer_greyscale,
            match done {
                Ok(()) => final(self).maze.solved_by(final(self).solved@),
                Err(error) => {
                    &&& error == MazeError::NoPath
                    &&& !old(self).maze.solvable()
                    &&& final(self).solved == old(self).solved
                },
            },
    {
        match self.maze.bfs() {
            Ok(path) => {
                self.solved = path;
                Ok(())
            },
            Err(error) => Err(error),
        }
    }

    /// Replaces the greyscale buffer by its three-channel form: an open cell
    /// becomes white, any other cell black.
    pub fn convert_greyscale_buf_to_rgb(&mut self)
        ensures
            final(self).image_buffer@ == to_rgb(old(self).image_buffer@),
            !final(self).is_buffer_greyscale,
            final(self).maze == old(self).maze,
            final(self).solved == old(self).solved,
            old(self).wf() && old(self).is_buffer_greyscale ==> final(self).wf(),
    {
        let color_buf = crate::paint::convert_greyscale_buf_to_rgb(&self.image_buffer);
        self.image_buffer = color_buf;
        self.is_buffer_greyscale = false;
    }

    /// Draws the solution into the three-channel buffer: the cells of the
    /// solution take the colour of the path, every other cell stays as it is.
    pub fn apply_solved_maze_to_buf(&mut self)
        requires
            old(self).wf(),
            !old(self).is_buffer_greyscale,
        ensures
            final(self).wf(),
            final(self).image_buffer@ == painted(
                old(self).image_buffer@,
                indices(old(self).solved@),
                path_color(),
            ),
            final(self).maze == old(self).maze,
            final(self).solved == old(self).solved,
            final(self).is_buffer_greyscale == old(self).is_buffer_greyscale,
    {
        let ghost base = self.image_buffer@;
        let ghost cells = indices(self.solved@);
        let color = Color { red: 0, green: 0, blue: 255 };
        let mut k: usize = 0;
        assert(self.image_buffer@ =~= painted(base, cells.take(0), color));
        while k < self.solved.len()
            invariant
                k <= self.solved.len(),
                self.maze == old(self).maze,
                self.solved == old(self).solved,
                self.is_buffer_greyscale == old(self).is_buffer_greyscale,
                !self.is_buffer_greyscale,
                old(self).wf(),
                base == old(self).image_buffer@,
                cells == indices(self.solved@),
                color == path_color(),
                self.image_buffer.len() == base.len(),
                self.image_buffer@ == painted(base, cells.take(k as int), color),
            decreases self.solved.len() - k,
        {
            let at = self.solved[k].vec_coord;
            proof {
                assert(self.solved@[k as int].vec_coord < self.maze.cells@.len());
                assert(cells[k as int] == at);
                lemma_painted_push(base, cells.take(k as int), at, color);
                assert(cells.take(k + 1) =~= cells.take(k as int).push(at));
            }
            paint_cell(&mut self.image_buffer, at, color);
            k += 1;
        }
        assert(cells.take(k as int) =~= cells);
    }

    /// Makes the image of the solved maze: the buffer in three channels with
    /// the solution drawn into it.
    pub fn render(&mut self)
        requires
            old(self).wf(),
        ensures
            final(self).wf(),
            !final(self).is_buffer_greyscale,
            final(self).image_buffer@ == painted(
                if old(self).is_buffer_greyscale {
                    to_rgb(old(self).image_buffer@)
                } else {
                    old(self).image_buffer@
                },
                indices(old(self).solved@),
                path_color(),
            ),
            final(self).maze == old(self).maze,
            final(self).solved == old(self).solved,
    {
        if self.is_buffer_greyscale {
            self.convert_greyscale_buf_to_rgb();
        }
        self.apply_solved_maze_to_buf();
    }
}

} // verus!
