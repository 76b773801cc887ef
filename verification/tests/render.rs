use maze_solver::maze::{Coordinate, Maze};
use maze_solver::render::to_pixels;

fn small_maze() -> Maze {
    // S . #
    // # . E
    Maze {
        width: 3,
        height: 2,
        grid: vec![vec![1, 0], vec![1, 1], vec![0, 1]],
        start: Coordinate::new(0, 0),
        end: Coordinate::new(2, 1),
    }
}

#[test]
fn to_pixels_paints_the_path_green() {
    let maze = small_maze();
    let path = vec![
        Coordinate::new(0, 0),
        Coordinate::new(1, 0),
        Coordinate::new(1, 1),
        Coordinate::new(2, 1),
    ];
    let expected = vec![
        255, 0, 0, 0, 255, 0, 0, 0, 0,
        0, 0, 0, 0, 255, 0, 0, 0, 255,
    ];
    assert_eq!(expected, to_pixels(&path, &maze));
}

#[test]
fn to_pixels_without_path_is_the_maze() {
    let maze = small_maze();
    assert_eq!(maze.as_image(), to_pixels(&vec![], &maze));
    let expected = vec![
        255, 0, 0, 255, 255, 255, 0, 0, 0,
        0, 0, 0, 255, 255, 255, 0, 0, 255,
    ];
    assert_eq!(expected, to_pixels(&vec![], &maze));
}

#[test]
fn to_pixels_keeps_the_markers() {
    let maze = small_maze();
    let path = vec![Coordinate::new(0, 0), Coordinate::new(2, 1)];
    assert_eq!(maze.as_image(), to_pixels(&path, &maze));
}

#[test]
fn to_pixels_paints_over_walls_and_twice() {
    let maze = small_maze();
    let path = vec![Coordinate::new(2, 0), Coordinate::new(0, 1), Coordinate::new(2, 0)];
    let expected = vec![
        255, 0, 0, 255, 255, 255, 0, 255, 0,
        0, 255, 0, 255, 255, 255, 0, 0, 255,
    ];
    assert_eq!(expected, to_pixels(&path, &maze));
}
