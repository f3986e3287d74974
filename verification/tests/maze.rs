use maze_fps::generate::backtrack;
use maze_fps::{generate_maze, generate_maze_seeded, maze_to_grid, Cell};
use rand::rngs::StdRng;
use rand::SeedableRng;

fn open_cell(walls: [bool; 4]) -> Cell {
    Cell { visited: true, walls }
}

/// The traversable positions that can be reached from `(1, 1)` by steps to
/// the four neighbouring positions.
fn flood(grid: &Vec<Vec<u8>>) -> usize {
    let mut reached = vec![vec![false; grid[0].len()]; grid.len()];
    let mut stack = vec![(1usize, 1usize)];
    reached[1][1] = true;
    let mut count = 0;
    while let Some((x, y)) = stack.pop() {
        count += 1;
        let mut next = Vec::new();
        if x > 0 {
            next.push((x - 1, y));
        }
        if y > 0 {
            next.push((x, y - 1));
        }
        if x + 1 < grid[0].len() {
            next.push((x + 1, y));
        }
        if y + 1 < grid.len() {
            next.push((x, y + 1));
        }
        for (nx, ny) in next {
            if grid[ny][nx] == 0 && !reached[ny][nx] {
                reached[ny][nx] = true;
                stack.push((nx, ny));
            }
        }
    }
    count
}

fn traversable(grid: &Vec<Vec<u8>>) -> usize {
    grid.iter().map(|row| row.iter().filter(|&&b| b == 0).count()).sum()
}

fn check_perfect(maze: &Vec<Vec<Cell>>, w: usize, h: usize) {
    assert_eq!(maze.len(), h);
    for row in maze {
        assert_eq!(row.len(), w);
        for cell in row {
            assert!(cell.visited);
        }
    }
    for y in 0..h {
        for x in 0..w {
            let walls = maze[y][x].walls;
            if y == 0 {
                assert!(walls[0]);
            } else {
                assert_eq!(walls[0], maze[y - 1][x].walls[2]);
            }
            if x + 1 == w {
                assert!(walls[1]);
            } else {
                assert_eq!(walls[1], maze[y][x + 1].walls[3]);
            }
            if y + 1 == h {
                assert!(walls[2]);
            }
            if x == 0 {
                assert!(walls[3]);
            }
        }
    }
    let grid = maze_to_grid(maze);
    assert_eq!(grid.len(), 2 * h + 1);
    for row in &grid {
        assert_eq!(row.len(), 2 * w + 1);
    }
    for y in 0..h {
        for x in 0..w {
            assert_eq!(grid[2 * y + 1][2 * x + 1], 0);
        }
    }
    // A tree over w*h cells has w*h - 1 passages, each one position.
    assert_eq!(traversable(&grid), w * h + (w * h - 1));
    assert_eq!(flood(&grid), traversable(&grid));
}

#[test]
fn single_cell_maze_expands_to_walled_box() {
    let maze = generate_maze(1, 1);
    assert_eq!(maze.len(), 1);
    assert_eq!(maze[0].len(), 1);
    assert!(maze[0][0].visited);
    assert_eq!(maze[0][0].walls, [true, true, true, true]);
    let grid = maze_to_grid(&maze);
    assert_eq!(grid, vec![vec![1u8, 1, 1], vec![1, 0, 1], vec![1, 1, 1]]);
}

#[test]
fn fresh_cell_is_unvisited_with_four_walls() {
    let cell = Cell::new();
    assert!(!cell.visited);
    assert_eq!(cell.walls, [true; 4]);
}

#[test]
fn generated_maze_is_a_spanning_tree() {
    check_perfect(&generate_maze(20, 15), 20, 15);
    check_perfect(&generate_maze(1, 9), 1, 9);
    check_perfect(&generate_maze(9, 1), 9, 1);
    check_perfect(&generate_maze(2, 2), 2, 2);
}

#[test]
fn seeded_maze_is_a_spanning_tree() {
    for seed in 0..25u64 {
        check_perfect(&generate_maze_seeded(6, 4, seed), 6, 4);
    }
}

#[test]
fn row_of_two_cells_has_one_passage() {
    let maze = generate_maze_seeded(2, 1, 3);
    assert_eq!(maze[0][0].walls, [true, false, true, true]);
    assert_eq!(maze[0][1].walls, [true, true, true, false]);
    let grid = maze_to_grid(&maze);
    assert_eq!(
        grid,
        vec![vec![1u8, 1, 1, 1, 1], vec![1, 0, 0, 0, 1], vec![1, 1, 1, 1, 1]]
    );
}

#[test]
fn same_seed_gives_same_maze() {
    let a = generate_maze_seeded(7, 5, 42);
    let b = generate_maze_seeded(7, 5, 42);
    assert_eq!(maze_to_grid(&a), maze_to_grid(&b));
}

#[test]
fn seeds_change_the_maze() {
    let first = maze_to_grid(&generate_maze_seeded(5, 5, 0));
    let mut differing = 0;
    for seed in 1..40u64 {
        if maze_to_grid(&generate_maze_seeded(5, 5, seed)) != first {
            differing += 1;
        }
    }
    assert!(differing > 0);
}

#[test]
fn walk_may_start_in_any_cell() {
    let mut grid = vec![vec![Cell::new(); 4]; 3];
    let mut rng = StdRng::seed_from_u64(11);
    backtrack(2, 1, 4, 3, &mut grid, &mut rng);
    check_perfect(&grid, 4, 3);
}

#[test]
fn expansion_clears_center_and_recorded_passages() {
    // One cell whose right and bottom walls are removed.
    let maze = vec![vec![open_cell([true, false, false, true])]];
    assert_eq!(
        maze_to_grid(&maze),
        vec![vec![1u8, 1, 1], vec![1, 0, 0], vec![1, 0, 1]]
    );
    // One cell whose top and left walls are removed.
    let maze = vec![vec![open_cell([false, true, true, false])]];
    assert_eq!(
        maze_to_grid(&maze),
        vec![vec![1u8, 0, 1], vec![0, 0, 1], vec![1, 1, 1]]
    );
}

#[test]
fn expansion_opens_a_passage_recorded_on_one_side_only() {
    let maze = vec![vec![
        open_cell([true, false, true, true]),
        open_cell([true, true, true, true]),
    ]];
    assert_eq!(
        maze_to_grid(&maze),
        vec![vec![1u8, 1, 1, 1, 1], vec![1, 0, 0, 0, 1], vec![1, 1, 1, 1, 1]]
    );
}

#[test]
fn expansion_of_two_rows() {
    let maze = vec![
        vec![open_cell([true, true, false, true]), open_cell([true, true, true, true])],
        vec![open_cell([false, false, true, true]), open_cell([true, true, true, false])],
    ];
    assert_eq!(
        maze_to_grid(&maze),
        vec![
            vec![1u8, 1, 1, 1, 1],
            vec![1, 0, 1, 0, 1],
            vec![1, 0, 1, 1, 1],
            vec![1, 0, 0, 0, 1],
            vec![1, 1, 1, 1, 1],
        ]
    );
}

#[test]
fn expanding_twice_gives_identical_grids() {
    let maze = generate_maze_seeded(8, 6, 5);
    assert_eq!(maze_to_grid(&maze), maze_to_grid(&maze));
}

#[test]
fn rim_of_a_generated_grid_is_solid() {
    let grid = maze_to_grid(&generate_maze_seeded(9, 7, 1234));
    let (gw, gh) = (grid[0].len(), grid.len());
    for x in 0..gw {
        assert_eq!(grid[0][x], 1);
        assert_eq!(grid[gh - 1][x], 1);
    }
    for y in 0..gh {
        assert_eq!(grid[y][0], 1);
        assert_eq!(grid[y][gw - 1], 1);
    }
}

#[test]
fn passage_positions_follow_the_walls() {
    let maze = generate_maze_seeded(5, 4, 77);
    let grid = maze_to_grid(&maze);
    for y in 0..4 {
        for x in 0..5 {
            let walls = maze[y][x].walls;
            assert_eq!(grid[2 * y][2 * x + 1] == 0, !walls[0]);
            assert_eq!(grid[2 * y + 1][2 * x + 2] == 0, !walls[1]);
            assert_eq!(grid[2 * y + 2][2 * x + 1] == 0, !walls[2]);
            assert_eq!(grid[2 * y + 1][2 * x] == 0, !walls[3]);
            // Corners between four cells are always solid.
            assert_eq!(grid[2 * y][2 * x], 1);
            assert_eq!(grid[2 * y + 2][2 * x + 2], 1);
        }
    }
}
