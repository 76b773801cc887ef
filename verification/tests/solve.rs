use maze_solver::maze::{Coordinate, Maze};
use maze_solver::maze_to_tree::maze_to_tree;
use maze_solver::path_to_end::path_to_end;
use maze_solver::render::to_pixels;
use maze_solver::tree::{Node, QuaternaryTree};

fn open_grid(width: usize, height: usize) -> Vec<Vec<u8>> {
    vec![vec![1; height]; width]
}

/// The cells of the nodes of the tree with, for each but the root, the cell
/// of its parent.
fn cells_with_parents(tree: &QuaternaryTree<Coordinate>) -> Vec<(Coordinate, Option<Coordinate>)> {
    let mut found = Vec::new();
    let mut stack: Vec<(&Node<Coordinate>, Option<Coordinate>)> = Vec::new();
    if let Some(root) = tree.root.as_ref() {
        stack.push((root, None));
    }
    while let Some((node, parent)) = stack.pop() {
        found.push((node.elem, parent));
        for link in [&node.left, &node.right, &node.up, &node.down] {
            if let Some(child) = link.as_ref() {
                stack.push((child, Some(node.elem)));
            }
        }
    }
    found
}

fn cells(tree: &QuaternaryTree<Coordinate>) -> Vec<Coordinate> {
    let mut all: Vec<Coordinate> = cells_with_parents(tree).iter().map(|entry| entry.0).collect();
    all.sort_by_key(|c| (c.x, c.y));
    all
}

fn next_to(a: Coordinate, b: Coordinate) -> bool {
    (a.x == b.x && (a.y + 1 == b.y || b.y + 1 == a.y))
        || (a.y == b.y && (a.x + 1 == b.x || b.x + 1 == a.x))
}

/// The cells that can be reached from the start, found by flooding the grid.
/// From a start that is a wall only the start itself is reached.
fn flood(maze: &Maze) -> Vec<Coordinate> {
    let mut seen = vec![vec![false; maze.height]; maze.width];
    let mut todo = vec![maze.start];
    seen[maze.start.x][maze.start.y] = true;
    let mut all = Vec::new();
    if maze.grid[maze.start.x][maze.start.y] != 1 {
        return todo;
    }
    while let Some(c) = todo.pop() {
        all.push(c);
        let mut around = Vec::new();
        if c.x > 0 {
            around.push(Coordinate::new(c.x - 1, c.y));
        }
        if c.y > 0 {
            around.push(Coordinate::new(c.x, c.y - 1));
        }
        if c.x + 1 < maze.width {
            around.push(Coordinate::new(c.x + 1, c.y));
        }
        if c.y + 1 < maze.height {
            around.push(Coordinate::new(c.x, c.y + 1));
        }
        for n in around {
            if maze.grid[n.x][n.y] == 1 && !seen[n.x][n.y] {
                seen[n.x][n.y] = true;
                todo.push(n);
            }
        }
    }
    all.sort_by_key(|c| (c.x, c.y));
    all
}

fn winding_maze() -> Maze {
    // S . # . . .
    // # . . . # .
    // # # . # # .
    // . . . . . E
    // # # # # # #
    // . . # . . .      no cell of this row can be reached
    let rows = [
        [1, 1, 0, 1, 1, 1],
        [0, 1, 1, 1, 0, 1],
        [0, 0, 1, 0, 0, 1],
        [1, 1, 1, 1, 1, 1],
        [0, 0, 0, 0, 0, 0],
        [1, 1, 0, 1, 1, 1],
    ];
    let mut grid = vec![vec![0u8; 6]; 6];
    for y in 0..6 {
        for x in 0..6 {
            grid[x][y] = rows[y][x];
        }
    }
    Maze { width: 6, height: 6, grid: grid, start: Coordinate::new(0, 0), end: Coordinate::new(5, 3) }
}

#[test]
fn tree_holds_each_reachable_cell_once_and_no_other() {
    let maze = winding_maze();
    assert_eq!(Ok(()), maze.check());
    let tree = maze_to_tree(&maze);
    let in_tree = cells(&tree);
    let mut unique = in_tree.clone();
    unique.dedup();
    assert_eq!(unique.len(), in_tree.len());
    assert_eq!(flood(&maze), in_tree);
    assert_eq!(17, in_tree.len());
    assert!(!in_tree.contains(&Coordinate::new(0, 5)));
    assert!(!in_tree.contains(&Coordinate::new(5, 5)));
    assert!(!in_tree.contains(&Coordinate::new(2, 0)));
}

#[test]
fn tree_has_one_root_and_children_next_to_their_parents() {
    let maze = winding_maze();
    let tree = maze_to_tree(&maze);
    let all = cells_with_parents(&tree);
    let roots: Vec<&(Coordinate, Option<Coordinate>)> =
        all.iter().filter(|entry| entry.1.is_none()).collect();
    assert_eq!(1, roots.len());
    assert_eq!(maze.start, roots[0].0);
    for (cell, parent) in all.iter() {
        if let Some(p) = parent {
            assert!(next_to(*cell, *p));
            assert_eq!(1, maze.grid[cell.x][cell.y]);
        }
    }
}

#[test]
fn child_slots_name_the_direction_of_the_child() {
    let maze = winding_maze();
    let tree = maze_to_tree(&maze);
    let mut stack = vec![tree.root.as_ref().unwrap()];
    while let Some(node) = stack.pop() {
        let c = node.elem;
        if let Some(child) = node.left.as_ref() {
            assert_eq!(Coordinate::new(c.x - 1, c.y), child.elem);
            stack.push(child);
        }
        if let Some(child) = node.right.as_ref() {
            assert_eq!(Coordinate::new(c.x + 1, c.y), child.elem);
            stack.push(child);
        }
        if let Some(child) = node.up.as_ref() {
            assert_eq!(Coordinate::new(c.x, c.y - 1), child.elem);
            stack.push(child);
        }
        if let Some(child) = node.down.as_ref() {
            assert_eq!(Coordinate::new(c.x, c.y + 1), child.elem);
            stack.push(child);
        }
    }
}

#[test]
fn path_is_found_exactly_for_the_cells_of_the_tree() {
    let maze = winding_maze();
    let tree = maze_to_tree(&maze);
    let in_tree = cells(&tree);
    for x in 0..maze.width {
        for y in 0..maze.height {
            let cell = Coordinate::new(x, y);
            let found = path_to_end(cell, &tree);
            assert_eq!(in_tree.contains(&cell), found.is_some());
            if let Some(path) = found {
                assert!(!path.is_empty());
            }
        }
    }
}

#[test]
fn found_path_leads_from_start_to_end_by_neighbours() {
    let maze = winding_maze();
    let tree = maze_to_tree(&maze);
    let path = path_to_end(maze.end, &tree).unwrap();
    assert_eq!(
        vec![
            Coordinate::new(0, 0),
            Coordinate::new(1, 0),
            Coordinate::new(1, 1),
            Coordinate::new(2, 1),
            Coordinate::new(2, 2),
            Coordinate::new(2, 3),
            Coordinate::new(3, 3),
            Coordinate::new(4, 3),
            Coordinate::new(5, 3),
        ],
        path
    );
    assert_eq!(maze.start, path[0]);
    assert_eq!(maze.end, path[path.len() - 1]);
    for k in 1..path.len() {
        assert!(next_to(path[k - 1], path[k]));
    }
}

#[test]
fn building_twice_gives_the_same_tree() {
    let maze = winding_maze();
    let first = maze_to_tree(&maze);
    let second = maze_to_tree(&maze);
    assert_eq!(first.root, second.root);
    assert!(first.root.is_some());
}

#[test]
fn open_three_by_four_grid() {
    let maze = Maze {
        width: 3,
        height: 4,
        grid: open_grid(3, 4),
        start: Coordinate::new(0, 2),
        end: Coordinate::new(2, 0),
    };
    let tree = maze_to_tree(&maze);
    let in_tree = cells(&tree);
    assert_eq!(12, in_tree.len());
    let mut expected = Vec::new();
    for x in 0..3 {
        for y in 0..4 {
            expected.push(Coordinate::new(x, y));
        }
    }
    assert_eq!(expected, in_tree);
    let path = path_to_end(maze.end, &tree).unwrap();
    // Two steps to the right and two up: right is probed before up.
    assert_eq!(
        vec![
            Coordinate::new(0, 2),
            Coordinate::new(1, 2),
            Coordinate::new(2, 2),
            Coordinate::new(2, 1),
            Coordinate::new(2, 0),
        ],
        path
    );
}

#[test]
fn walled_in_end_cannot_be_reached() {
    // . . .
    // . # #
    // . # E
    let maze = Maze {
        width: 3,
        height: 3,
        grid: vec![vec![1, 1, 1], vec![1, 0, 0], vec![1, 0, 1]],
        start: Coordinate::new(0, 0),
        end: Coordinate::new(2, 2),
    };
    let tree = maze_to_tree(&maze);
    assert_eq!(None, path_to_end(maze.end, &tree));
    assert_eq!(5, cells(&tree).len());
}

#[test]
fn blocked_end_cannot_be_reached() {
    let maze = Maze {
        width: 3,
        height: 1,
        grid: vec![vec![1], vec![1], vec![0]],
        start: Coordinate::new(0, 0),
        end: Coordinate::new(2, 0),
    };
    let tree = maze_to_tree(&maze);
    assert_eq!(None, path_to_end(maze.end, &tree));
}

#[test]
fn one_cell_maze_where_start_is_end() {
    let maze = Maze {
        width: 1,
        height: 1,
        grid: vec![vec![1]],
        start: Coordinate::new(0, 0),
        end: Coordinate::new(0, 0),
    };
    let mut tree = maze_to_tree(&maze);
    assert_eq!(Some(vec![Coordinate::new(0, 0)]), path_to_end(maze.end, &tree));
    assert_eq!(1, tree.teardown());
}

#[test]
fn image_without_markers_is_solved_from_corner_to_corner() {
    // . . #
    // # . .
    let pixels = vec![
        255, 255, 255, 200, 200, 200, 0, 0, 0,
        0, 0, 0, 255, 255, 255, 9, 9, 9,
    ];
    let maze = Maze::from_image(3, 2, &pixels);
    assert_eq!(Coordinate::new(0, 0), maze.start);
    assert_eq!(Coordinate::new(2, 1), maze.end);
    assert_eq!(Ok(()), maze.check());
    let tree = maze_to_tree(&maze);
    let path = path_to_end(maze.end, &tree).unwrap();
    assert_eq!(
        vec![
            Coordinate::new(0, 0),
            Coordinate::new(1, 0),
            Coordinate::new(1, 1),
            Coordinate::new(2, 1),
        ],
        path
    );
    let expected = vec![
        255, 0, 0, 0, 255, 0, 0, 0, 0,
        0, 0, 0, 0, 255, 0, 0, 0, 255,
    ];
    assert_eq!(expected, to_pixels(&path, &maze));
}

#[test]
fn shorter_way_wins_over_the_way_probed_first() {
    // S . . .
    // . # # .
    // . . E .
    // Right is probed before down, but the end is four steps away through
    // the left column and six through the top row.
    let rows = [[1, 1, 1, 1], [1, 0, 0, 1], [1, 1, 1, 1]];
    let mut grid = vec![vec![0u8; 3]; 4];
    for y in 0..3 {
        for x in 0..4 {
            grid[x][y] = rows[y][x];
        }
    }
    let maze = Maze { width: 4, height: 3, grid: grid, start: Coordinate::new(0, 0), end: Coordinate::new(2, 2) };
    let tree = maze_to_tree(&maze);
    assert_eq!(
        Some(vec![
            Coordinate::new(0, 0),
            Coordinate::new(0, 1),
            Coordinate::new(0, 2),
            Coordinate::new(1, 2),
            Coordinate::new(2, 2),
        ]),
        path_to_end(maze.end, &tree)
    );
}

#[test]
fn image_whose_default_start_is_a_wall_has_no_way_out() {
    // Black, then white, and no markers: the start falls on the wall.
    let pixels = vec![0, 0, 0, 255, 255, 255];
    let maze = Maze::from_image(2, 1, &pixels);
    assert_eq!(Coordinate::new(0, 0), maze.start);
    assert_eq!(Coordinate::new(1, 0), maze.end);
    assert_eq!(vec![vec![0], vec![1]], maze.grid);
    assert_eq!(Ok(()), maze.check());
    let tree = maze_to_tree(&maze);
    assert_eq!(vec![Coordinate::new(0, 0)], cells(&tree));
    assert_eq!(None, path_to_end(maze.end, &tree));
    assert_eq!(Some(vec![Coordinate::new(0, 0)]), path_to_end(maze.start, &tree));
}

#[test]
fn tree_has_one_node_for_each_cell_that_can_be_reached() {
    let maze = winding_maze();
    let mut tree = maze_to_tree(&maze);
    let released = tree.teardown();
    assert_eq!(17, released);
    assert_eq!(flood(&maze).len(), released);
    assert!(released <= maze.width * maze.height);

    let open = Maze {
        width: 5,
        height: 7,
        grid: open_grid(5, 7),
        start: Coordinate::new(4, 6),
        end: Coordinate::new(0, 0),
    };
    let mut tree = maze_to_tree(&open);
    assert_eq!(35, tree.teardown());
}

#[test]
fn tree_of_a_maze_with_a_wall_start_holds_the_start_only() {
    let mut maze = winding_maze();
    maze.grid[0][0] = 0;
    let tree = maze_to_tree(&maze);
    assert_eq!(flood(&maze), cells(&tree));
    assert_eq!(vec![maze.start], cells(&tree));
    assert_eq!(None, path_to_end(maze.end, &tree));
}
