use maze_solver::maze::{find_end, find_start, Coordinate, Maze, MazeError};

#[test]
fn test_find_start() {
    let pixels = vec![
        0, 0, 0, 0, 0, 0, 0, 0, 255,
        0, 0, 0, 0, 0, 0, 0, 0, 0,
        255, 0, 0, 0, 0, 0, 0, 0, 0,
    ];
    assert_eq!(Some(Coordinate::new(0, 2)), find_start(3, &pixels));

    let pixels = vec![
        0, 0, 0, 0, 0, 0, 0, 0, 0,
        0, 0, 0, 0, 0, 0, 0, 0, 0,
        0, 0, 0, 0, 0, 0, 0, 0, 0,
    ];
    assert_eq!(None, find_start(3, &pixels));
}

#[test]
fn test_find_end() {
    let pixels = vec![
        0, 0, 0, 0, 0, 0, 0, 0, 255,
        0, 0, 0, 0, 0, 0, 0, 0, 0,
        255, 0, 0, 0, 0, 0, 0, 0, 0,
    ];
    assert_eq!(Some(Coordinate::new(2, 0)), find_end(3, &pixels));

    let pixels = vec![
        0, 0, 0, 0, 0, 0, 0, 0, 0,
        0, 0, 0, 0, 0, 0, 0, 0, 0,
        0, 0, 0, 0, 0, 0, 0, 0, 0,
    ];
    assert_eq!(None, find_end(3, &pixels));
}

#[test]
fn from() {
    let pixels = vec![
        0, 0, 0, 0, 0, 0, 0, 0, 255,
        255, 255, 255, 255, 255, 255, 0, 0, 0,
        255, 0, 0, 0, 0, 0, 0, 0, 0,
        255, 255, 255, 0, 0, 0, 255, 255, 255,
    ];
    let expected_grid = vec![
        vec![0, 1, 1, 1],
        vec![0, 1, 0, 0],
        vec![1, 0, 0, 1],
    ];

    let maze = Maze::from_image(3, 4, &pixels);

    assert_eq!(&expected_grid, &maze.grid);
    assert_eq!(4, maze.height);
    assert_eq!(3, maze.width);
    assert_eq!(Coordinate::new(0, 2), maze.start);
    assert_eq!(Coordinate::new(2, 0), maze.end);

    let pixels = vec![
        0, 0, 0, 0, 0, 0,
        0, 0, 0, 0, 0, 0,
    ];
    let maze = Maze::from_image(2, 2, &pixels);

    assert_eq!(Coordinate::new(0, 0), maze.start);
    assert_eq!(Coordinate::new(1, 1), maze.end);
}

#[test]
fn coordinate_new_keeps_both_fields() {
    let c = Coordinate::new(3, 7);
    assert_eq!(3, c.x);
    assert_eq!(7, c.y);
    assert_eq!(c, Coordinate { x: 3, y: 7 });
    assert_ne!(c, Coordinate::new(7, 3));
}

#[test]
fn first_marker_wins() {
    // Two red pixels and two blue ones: the first of each in reading order counts.
    let pixels = vec![
        9, 9, 9, 0, 0, 255, 255, 0, 0,
        255, 0, 0, 0, 0, 255, 9, 9, 9,
    ];
    assert_eq!(Some(Coordinate::new(2, 0)), find_start(3, &pixels));
    assert_eq!(Some(Coordinate::new(1, 0)), find_end(3, &pixels));
    let maze = Maze::from_image(3, 2, &pixels);
    assert_eq!(Coordinate::new(2, 0), maze.start);
    assert_eq!(Coordinate::new(1, 0), maze.end);
}

#[test]
fn markers_need_the_pure_colour() {
    let pixels = vec![
        254, 0, 0, 255, 1, 0, 255, 0, 1,
        0, 0, 254, 1, 0, 255, 0, 1, 255,
    ];
    assert_eq!(None, find_start(3, &pixels));
    assert_eq!(None, find_end(3, &pixels));
}

#[test]
fn find_start_ignores_trailing_bytes() {
    // Two bytes beyond the last whole pixel do not make a pixel.
    let pixels = vec![0, 0, 0, 255, 0];
    assert_eq!(None, find_start(1, &pixels));
    let pixels = vec![0, 0, 0, 255, 0, 0, 7];
    assert_eq!(Some(Coordinate::new(0, 1)), find_start(1, &pixels));
}

#[test]
fn from_image_reads_markers_as_passable() {
    let pixels = vec![
        255, 0, 0, 0, 0, 0,
        1, 0, 0, 0, 0, 255,
    ];
    let maze = Maze::from_image(2, 2, &pixels);
    assert_eq!(vec![vec![1, 1], vec![0, 1]], maze.grid);
    assert_eq!(Coordinate::new(0, 0), maze.start);
    assert_eq!(Coordinate::new(1, 1), maze.end);
    assert_eq!(Ok(()), maze.check());
}

#[test]
fn from_image_single_pixel() {
    let maze = Maze::from_image(1, 1, &vec![10, 20, 30]);
    assert_eq!(1, maze.width);
    assert_eq!(1, maze.height);
    assert_eq!(vec![vec![1]], maze.grid);
    assert_eq!(Coordinate::new(0, 0), maze.start);
    assert_eq!(Coordinate::new(0, 0), maze.end);
}

#[test]
fn as_image_draws_each_cell() {
    let maze = Maze {
        width: 3,
        height: 2,
        grid: vec![vec![1, 0], vec![0, 1], vec![1, 1]],
        start: Coordinate::new(0, 0),
        end: Coordinate::new(2, 1),
    };
    let expected = vec![
        255, 0, 0, 0, 0, 0, 255, 255, 255,
        0, 0, 0, 255, 255, 255, 0, 0, 255,
    ];
    assert_eq!(expected, maze.as_image());
}

#[test]
fn as_image_start_covers_end() {
    let maze = Maze {
        width: 1,
        height: 2,
        grid: vec![vec![1, 0]],
        start: Coordinate::new(0, 1),
        end: Coordinate::new(0, 1),
    };
    assert_eq!(vec![255, 255, 255, 255, 0, 0], maze.as_image());
}

#[test]
fn as_image_undoes_from_image() {
    let pixels = vec![
        0, 0, 0, 255, 255, 255, 0, 0, 255,
        255, 255, 255, 255, 255, 255, 0, 0, 0,
        255, 0, 0, 0, 0, 0, 255, 255, 255,
    ];
    let maze = Maze::from_image(3, 3, &pixels);
    assert_eq!(pixels, maze.as_image());
}

#[test]
fn is_inside_tells_the_grid_from_the_rest() {
    let maze = Maze {
        width: 3,
        height: 2,
        grid: vec![vec![1, 1], vec![1, 1], vec![1, 1]],
        start: Coordinate::new(0, 0),
        end: Coordinate::new(2, 1),
    };
    assert!(maze.is_inside(0, 0));
    assert!(maze.is_inside(2, 1));
    assert!(!maze.is_inside(3, 1));
    assert!(!maze.is_inside(2, 2));
    assert!(!maze.is_inside(-1, 0));
    assert!(!maze.is_inside(0, -1));
    assert!(!maze.is_inside(i32::MIN, i32::MIN));
    assert!(!maze.is_inside(i32::MAX, 0));
}

#[test]
fn check_accepts_a_well_formed_maze() {
    let maze = Maze {
        width: 2,
        height: 2,
        grid: vec![vec![0, 1], vec![1, 0]],
        start: Coordinate::new(0, 0),
        end: Coordinate::new(1, 1),
    };
    assert_eq!(Ok(()), maze.check());
}

#[test]
fn check_refuses_zero_width() {
    let maze = Maze {
        width: 0,
        height: 2,
        grid: vec![],
        start: Coordinate::new(0, 0),
        end: Coordinate::new(0, 0),
    };
    assert_eq!(Err(MazeError::ZeroWidth), maze.check());
}

#[test]
fn check_refuses_zero_height() {
    let maze = Maze {
        width: 2,
        height: 0,
        grid: vec![vec![], vec![]],
        start: Coordinate::new(0, 0),
        end: Coordinate::new(0, 0),
    };
    assert_eq!(Err(MazeError::ZeroHeight), maze.check());
}

#[test]
fn check_refuses_start_outside() {
    let maze = Maze {
        width: 2,
        height: 2,
        grid: vec![vec![1, 1], vec![1, 1]],
        start: Coordinate::new(2, 0),
        end: Coordinate::new(5, 5),
    };
    assert_eq!(Err(MazeError::StartOutside), maze.check());
    let maze = Maze { start: Coordinate::new(0, 2), ..maze };
    assert_eq!(Err(MazeError::StartOutside), maze.check());
}

#[test]
fn check_refuses_end_outside() {
    let maze = Maze {
        width: 2,
        height: 2,
        grid: vec![vec![1, 1], vec![1, 1]],
        start: Coordinate::new(1, 1),
        end: Coordinate::new(0, 2),
    };
    assert_eq!(Err(MazeError::EndOutside), maze.check());
}

#[test]
fn check_refuses_wrong_shape() {
    let maze = Maze {
        width: 2,
        height: 2,
        grid: vec![vec![1, 1]],
        start: Coordinate::new(0, 0),
        end: Coordinate::new(1, 1),
    };
    assert_eq!(Err(MazeError::GridShape), maze.check());
    let maze = Maze { grid: vec![vec![1, 1], vec![1, 1, 1]], ..maze };
    assert_eq!(Err(MazeError::GridShape), maze.check());
}

#[test]
fn check_refuses_other_cell_values() {
    let maze = Maze {
        width: 2,
        height: 2,
        grid: vec![vec![1, 1], vec![1, 2]],
        start: Coordinate::new(0, 0),
        end: Coordinate::new(1, 1),
    };
    assert_eq!(Err(MazeError::CellValue), maze.check());
}

#[test]
fn is_passable_tells_open_cells_from_walls_and_the_outside() {
    let maze = Maze {
        width: 2,
        height: 3,
        grid: vec![vec![1, 0, 1], vec![0, 1, 0]],
        start: Coordinate::new(0, 0),
        end: Coordinate::new(1, 1),
    };
    assert!(maze.is_passable(Coordinate::new(0, 0)));
    assert!(!maze.is_passable(Coordinate::new(0, 1)));
    assert!(maze.is_passable(Coordinate::new(0, 2)));
    assert!(!maze.is_passable(Coordinate::new(1, 0)));
    assert!(maze.is_passable(Coordinate::new(1, 1)));
    assert!(!maze.is_passable(Coordinate::new(2, 1)));
    assert!(!maze.is_passable(Coordinate::new(1, 3)));
    assert!(!maze.is_passable(Coordinate::new(usize::MAX, usize::MAX)));
}

#[test]
fn each_error_says_what_is_wrong() {
    assert_eq!("the maze has no columns", MazeError::ZeroWidth.message());
    assert_eq!("the maze has no rows", MazeError::ZeroHeight.message());
    assert_eq!(
        "the grid does not have the width and height of the maze",
        MazeError::GridShape.message()
    );
    assert_eq!(
        "a cell of the grid holds a value other than 0 and 1",
        MazeError::CellValue.message()
    );
    assert_eq!("the start lies outside the grid", MazeError::StartOutside.message());
    assert_eq!("the end lies outside the grid", MazeError::EndOutside.message());
    assert_eq!(
        "the image does not hold three bytes for each pixel",
        MazeError::ImageSize.message()
    );
}

fn refusal(width: usize, height: usize, pixels: &Vec<u8>) -> Option<MazeError> {
    match Maze::try_from_image(width, height, pixels) {
        Ok(_) => None,
        Err(fault) => Some(fault),
    }
}

#[test]
fn try_from_image_refuses_an_image_without_columns() {
    assert_eq!(Some(MazeError::ZeroWidth), refusal(0, 2, &vec![]));
    assert_eq!(Some(MazeError::ZeroWidth), refusal(0, 0, &vec![]));
    assert_eq!(Some(MazeError::ZeroWidth), refusal(0, 1, &vec![1, 2, 3]));
}

#[test]
fn try_from_image_refuses_an_image_without_rows() {
    assert_eq!(Some(MazeError::ZeroHeight), refusal(2, 0, &vec![]));
    assert_eq!(Some(MazeError::ZeroHeight), refusal(1, 0, &vec![1, 2, 3]));
}

#[test]
fn try_from_image_refuses_a_buffer_of_the_wrong_size() {
    assert_eq!(Some(MazeError::ImageSize), refusal(1, 1, &vec![]));
    assert_eq!(Some(MazeError::ImageSize), refusal(1, 1, &vec![0, 0]));
    assert_eq!(Some(MazeError::ImageSize), refusal(1, 1, &vec![0, 0, 0, 0]));
    assert_eq!(Some(MazeError::ImageSize), refusal(2, 2, &vec![0; 11]));
    assert_eq!(Some(MazeError::ImageSize), refusal(2, 2, &vec![0; 13]));
    assert_eq!(None, refusal(2, 2, &vec![0; 12]));
}

#[test]
fn try_from_image_refuses_sizes_beyond_every_buffer() {
    assert_eq!(Some(MazeError::ImageSize), refusal(usize::MAX, 2, &vec![0; 6]));
    assert_eq!(Some(MazeError::ImageSize), refusal(usize::MAX, usize::MAX, &vec![]));
    assert_eq!(Some(MazeError::ImageSize), refusal(usize::MAX / 2, 1, &vec![0; 3]));
}

#[test]
fn try_from_image_reads_what_from_image_reads() {
    let pixels = vec![
        0, 0, 0, 0, 0, 0, 0, 0, 255,
        255, 255, 255, 255, 255, 255, 0, 0, 0,
        255, 0, 0, 0, 0, 0, 0, 0, 0,
        255, 255, 255, 0, 0, 0, 255, 255, 255,
    ];
    let maze = match Maze::try_from_image(3, 4, &pixels) {
        Ok(maze) => maze,
        Err(fault) => panic!("refused: {}", fault.message()),
    };
    let plain = Maze::from_image(3, 4, &pixels);
    assert_eq!(3, maze.width);
    assert_eq!(4, maze.height);
    assert_eq!(vec![vec![0, 1, 1, 1], vec![0, 1, 0, 0], vec![1, 0, 0, 1]], maze.grid);
    assert_eq!(plain.grid, maze.grid);
    assert_eq!(Coordinate::new(0, 2), maze.start);
    assert_eq!(Coordinate::new(2, 0), maze.end);
    assert_eq!(Ok(()), maze.check());
}
