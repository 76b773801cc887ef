use crate::maze::{lemma_cell_index, pixel, Coordinate, Maze};
use vstd::prelude::*;

verus! {

/// The colour of a cell on the way from the start to the end.
pub open spec fn green() -> (u8, u8, u8) {
    (0u8, 255u8, 0u8)
}

/// Whether `path` goes through `cell`.
pub open spec fn on_path(path: Seq<Coordinate>, cell: (int, int)) -> bool {
    exists|k: int| 0 <= k < path.len() && (#[trigger] path[k])@ == cell
}

/// The colour in which `cell` is drawn when `path` is drawn into the maze:
/// green where the path goes through the cell, unless the cell is the start
/// or the end, and the colour that the cell has in the maze everywhere else.
pub open spec fn drawn(maze: &Maze, path: Seq<Coordinate>, cell: (int, int)) -> (u8, u8, u8) {
    if cell != maze.start@ && cell != maze.end@ && on_path(path, cell) {
        green()
    } else {
        maze.colour(cell)
    }
}

/// Creates an image from a maze where the solution is green, the start is
/// red, the end is blue, the walls are black and every other cell is white.
/// The image has `width` by `height` pixels, stored row by row from the top
/// with three bytes per pixel.
pub fn to_pixels(path: &Vec<Coordinate>, maze: &Maze) -> (pixels: Vec<u8>)
    requires
        maze.shaped(),
        forall|k: int| 0 <= k < path@.len() ==> maze.inside((#[trigger] path@[k])@),
    ensures
        pixels@.len() == 3 * (maze.width * maze.height),
        forall|x: int, y: int|
            0 <= x < maze.width && 0 <= y < maze.height ==> pixel(pixels@, y * maze.width + x)
                == drawn(maze, path@, (x, y)),
{
    let mut pixels = maze.as_image();
    let mut k: usize = 0;
    proof {
        assert forall|x: int, y: int| 0 <= x < maze.width && 0 <= y < maze.height implies pixel(
            pixels@,
            y * maze.width + x,
        ) == drawn(maze, path@.take(0), (x, y)) by {
            assert(!on_path(path@.take(0), (x, y)));
        }
    }
    while k < path.len()
        invariant
            k <= path@.len(),
            maze.shaped(),
            forall|j: int| 0 <= j < path@.len() ==> maze.inside((#[trigger] path@[j])@),
            pixels.len() == 3 * (maze.width * maze.height),
            forall|x: int, y: int|
                0 <= x < maze.width && 0 <= y < maze.height ==> pixel(pixels@, y * maze.width + x)
                    == drawn(maze, path@.take(k as int), (x, y)),
        decreases path@.len() - k,
    {
        let cor = path[k];
        let ghost before = pixels@;
        let ghost w = maze.width as int;
        let ghost h = maze.height as int;
        proof {
            assert(maze.inside(path@[k as int]@));
            lemma_cell_index(w, h, cor.x as int, cor.y as int);
        }
        let marker = (cor.x == maze.start.x && cor.y == maze.start.y) || (cor.x == maze.end.x
            && cor.y == maze.end.y);
        if !marker {
            let at: usize = 3 * (cor.y * maze.width + cor.x);
            pixels[at] = 0;
            pixels[at + 1] = 255;
            pixels[at + 2] = 0;
        }
        proof {
            let shorter = path@.take(k as int);
            let longer = path@.take(k + 1);
            assert(longer[k as int] == cor);
            assert forall|x: int, y: int| 0 <= x < w && 0 <= y < h implies pixel(
                pixels@,
                y * maze.width + x,
            ) == drawn(maze, longer, (x, y)) by {
                lemma_cell_index(w, h, x, y);
                assert(pixel(before, y * maze.width + x) == drawn(maze, shorter, (x, y)));
                if (x, y) == cor@ {
                    assert(on_path(longer, (x, y)));
                } else {
                    assert(pixel(pixels@, y * maze.width + x) == pixel(
                        before,
                        y * maze.width + x,
                    ));
                    if on_path(shorter, (x, y)) {
                        let j = choose|j: int| 0 <= j < shorter.len() && (#[trigger] shorter[j])@
                            == (x, y);
                        assert(longer[j] == shorter[j]);
                    }
                    if on_path(longer, (x, y)) {
                        let j = choose|j: int| 0 <= j < longer.len() && (#[trigger] longer[j])@
                            == (x, y);
                        assert(shorter[j] == longer[j]);
                    }
                }
            }
        }
        k = k + 1;
    }
    proof {
        assert(path@.take(k as int) =~= path@);
    }
    pixels
}

} // verus!
