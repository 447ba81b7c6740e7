use maze_walk::carve::{generate_maze, shuffle_directions};
use maze_walk::game::{apply_command, at_goal, command_for_key, new_level, Command, Outcome};
use maze_walk::goal::set_start_and_goal;
use maze_walk::grid::{add_padding, glyph, new_maze, Cell, Player, HEIGHT, WIDTH};
use maze_walk::movement::{move_in, move_player};
use maze_walk::rng::next_seed;

fn carved(seed: u64) -> Vec<Vec<Cell>> {
    let mut maze = new_maze();
    generate_maze(&mut maze, 1, 1, seed);
    maze
}

fn picture(maze: &Vec<Vec<Cell>>) -> Vec<String> {
    maze.iter()
        .map(|row| {
            row.iter()
                .map(|c| match c {
                    Cell::Wall => '#',
                    Cell::Path => '.',
                    Cell::Start => 'S',
                    Cell::Goal => 'G',
                    Cell::Player => '@',
                })
                .collect()
        })
        .collect()
}

fn from_picture(lines: &[&str]) -> Vec<Vec<Cell>> {
    lines
        .iter()
        .map(|l| {
            l.chars()
                .map(|ch| match ch {
                    '#' => Cell::Wall,
                    'S' => Cell::Start,
                    'G' => Cell::Goal,
                    '@' => Cell::Player,
                    _ => Cell::Path,
                })
                .collect()
        })
        .collect()
}

fn open(c: Cell) -> bool {
    c == Cell::Path || c == Cell::Start || c == Cell::Goal
}

#[test]
fn next_seed_values() {
    assert_eq!(next_seed(0), 12345);
    assert_eq!(next_seed(42), 1250496027);
    assert_eq!(next_seed(u64::MAX), 1043980748);
    assert!(next_seed(123456789) < 2147483648);
}

#[test]
fn shuffle_for_seed_42() {
    let (order, rng) = shuffle_directions(42);
    let mut sorted = order.clone();
    sorted.sort();
    assert_eq!(sorted, vec![0, 1, 2, 3]);
    assert_eq!(rng, next_seed(next_seed(next_seed(42))));
}

#[test]
fn carve_is_deterministic() {
    for seed in [0u64, 1, 42, 1700000000] {
        assert_eq!(carved(seed), carved(seed));
    }
}

#[test]
fn layout_for_seed_42() {
    let mut maze = carved(42);
    set_start_and_goal(&mut maze, 42);
    let expected = vec![
        "#####################",
        "S.....#...#...#.....#",
        "#####.#.#.#.#.###.###",
        "#...#...#...#...#...#",
        "#.#############.###.#",
        "#.......#.....#...#.#",
        "#.#.#####.#.#####.#.#",
        "#.#...#...#.....#...#",
        "#.###.#.#####.#####.#",
        "#...#.......#.......G",
        "#####################",
    ];
    assert_eq!(picture(&maze), expected);
}

#[test]
fn carving_stays_connected() {
    for seed in 0u64..40 {
        let maze = carved(seed * 7919 + 3);
        let mut seen = vec![vec![false; WIDTH]; HEIGHT];
        let mut todo = vec![(1usize, 1usize)];
        seen[1][1] = true;
        while let Some((x, y)) = todo.pop() {
            let steps: [(i64, i64); 4] = [(0, -1), (1, 0), (0, 1), (-1, 0)];
            for (dx, dy) in steps {
                let nx = x as i64 + dx;
                let ny = y as i64 + dy;
                if nx < 0 || ny < 0 || nx >= WIDTH as i64 || ny >= HEIGHT as i64 {
                    continue;
                }
                let (nx, ny) = (nx as usize, ny as usize);
                if !seen[ny][nx] && open(maze[ny][nx]) {
                    seen[ny][nx] = true;
                    todo.push((nx, ny));
                }
            }
        }
        for y in 0..HEIGHT {
            for x in 0..WIDTH {
                assert_eq!(seen[y][x], maze[y][x] == Cell::Path, "seed {} at ({}, {})", seed, x, y);
            }
        }
    }
}

#[test]
fn carving_keeps_border_walls() {
    let maze = carved(42);
    for x in 0..WIDTH {
        assert_eq!(maze[0][x], Cell::Wall);
        assert_eq!(maze[HEIGHT - 1][x], Cell::Wall);
    }
    for y in 0..HEIGHT {
        assert_eq!(maze[y][0], Cell::Wall);
    }
}

#[test]
fn start_is_fixed() {
    for seed in [0u64, 5, 42, 99, 1700000000] {
        let mut maze = carved(seed);
        set_start_and_goal(&mut maze, seed);
        assert_eq!(maze[1][0], Cell::Start);
    }
}

#[test]
fn goal_is_farthest() {
    for seed in [0u64, 5, 42, 99, 1700000000] {
        let mut maze = carved(seed);
        let before = maze.clone();
        set_start_and_goal(&mut maze, seed);
        let mut goals = Vec::new();
        for y in 0..HEIGHT {
            for x in 0..WIDTH {
                if maze[y][x] == Cell::Goal {
                    goals.push((x, y));
                }
            }
        }
        assert_eq!(goals.len(), 1);
        let (gx, gy) = goals[0];
        for y in 1..HEIGHT - 1 {
            for x in 1..WIDTH - 1 {
                if before[y][x] == Cell::Path {
                    assert!((x - 1) + (y - 1) <= (gx - 1) + (gy - 1));
                }
            }
        }
    }
}

#[test]
fn goal_tie_goes_by_generator() {
    let mut maze = new_maze();
    maze[1][2] = Cell::Path;
    maze[2][1] = Cell::Path;
    set_start_and_goal(&mut maze, 0);
    assert_eq!(maze[1][2], Cell::Goal);
    assert_eq!(maze[2][1], Cell::Path);
    let mut maze = new_maze();
    maze[1][2] = Cell::Path;
    maze[2][1] = Cell::Path;
    set_start_and_goal(&mut maze, 1);
    assert_eq!(maze[1][2], Cell::Path);
    assert_eq!(maze[2][1], Cell::Goal);
}

#[test]
fn goal_moves_into_last_column() {
    let mut maze = new_maze();
    maze[5][19] = Cell::Path;
    set_start_and_goal(&mut maze, 3);
    assert_eq!(maze[5][20], Cell::Goal);
    assert_eq!(maze[5][19], Cell::Path);
    assert_eq!(maze[1][0], Cell::Start);
}

#[test]
fn goal_moves_into_last_row() {
    let mut maze = new_maze();
    maze[9][4] = Cell::Path;
    set_start_and_goal(&mut maze, 3);
    assert_eq!(maze[10][4], Cell::Goal);
}

#[test]
fn seed_42_right_right_down() {
    let (mut maze, mut player) = new_level(42);
    assert_eq!(maze[1][0], Cell::Start);
    move_player(&mut maze, &mut player, 1, 0);
    move_player(&mut maze, &mut player, 1, 0);
    move_player(&mut maze, &mut player, 0, 1);
    // (2,1) and (3,1) are paths for seed 42, (3,2) is a wall.
    assert_eq!(maze[2][3], Cell::Wall);
    assert_ne!((player.x, player.y), (3, 2));
    assert_eq!((player.x, player.y), (3, 1));
    assert_eq!(maze[1][3], Cell::Player);
    assert_eq!(maze[1][1], Cell::Path);
    assert_eq!(maze[1][2], Cell::Path);
}

#[test]
fn step_onto_goal_shows_player_on_padding() {
    let mut maze = from_picture(&["#####", "#...#", "#.#.#", "#..G.", "....."]);
    let mut player = Player { x: 3, y: 2 };
    maze[2][3] = Cell::Player;
    move_in(&mut maze, 4, 4, &mut player, 0, 1);
    assert_eq!((player.x, player.y), (3, 3));
    assert_eq!(maze[4][3], Cell::Player);
    assert_eq!(maze[3][3], Cell::Goal);
    assert_eq!(maze[2][3], Cell::Path);
}

#[test]
fn step_onto_goal_from_last_column() {
    let mut maze = from_picture(&["#####", "#...#", "#..G.", "#...#", "....."]);
    let mut player = Player { x: 2, y: 2 };
    maze[2][2] = Cell::Player;
    move_in(&mut maze, 4, 4, &mut player, 1, 0);
    assert_eq!((player.x, player.y), (3, 2));
    assert_eq!(picture(&maze), vec!["#####", "#...#", "#..G@", "#...#", "....."]);
    let mut maze = from_picture(&["#####", "#..G#", "#..G.", "#...#", "....."]);
    let mut player = Player { x: 3, y: 2 };
    move_in(&mut maze, 4, 4, &mut player, 0, -1);
    assert_eq!((player.x, player.y), (3, 1));
    assert_eq!(picture(&maze), vec!["#####", "#..G#", "#..G.", "#...#", "....."]);
}

#[test]
fn wall_blocks_move() {
    let (mut maze, mut player) = new_level(42);
    let before = maze.clone();
    move_player(&mut maze, &mut player, 0, 1);
    assert_eq!((player.x, player.y), (1, 1));
    assert_eq!(maze, before);
    move_player(&mut maze, &mut player, 0, -1);
    assert_eq!((player.x, player.y), (1, 1));
    assert_eq!(maze, before);
}

#[test]
fn move_stays_in_bounds() {
    let mut maze = vec![vec![Cell::Path; WIDTH + 1]; HEIGHT + 1];
    let mut player = Player { x: 0, y: 0 };
    move_player(&mut maze, &mut player, -1, 0);
    move_player(&mut maze, &mut player, 0, -1);
    assert_eq!((player.x, player.y), (0, 0));
    let mut player = Player { x: WIDTH - 1, y: HEIGHT - 1 };
    move_player(&mut maze, &mut player, 1, 0);
    move_player(&mut maze, &mut player, 0, 1);
    assert_eq!((player.x, player.y), (WIDTH - 1, HEIGHT - 1));
}

#[test]
fn walls_never_become_player() {
    for seed in [1u64, 42, 77] {
        let (mut maze, mut player) = new_level(seed);
        let walls = maze.clone();
        for (i, key) in "ddssaawdsdsdsdwwaassddddssddssddwwdd".chars().enumerate() {
            apply_command(&mut maze, &mut player, command_for_key(key));
            assert!(player.x < WIDTH && player.y < HEIGHT, "step {}", i);
            for y in 0..=HEIGHT {
                for x in 0..=WIDTH {
                    if walls[y][x] == Cell::Wall {
                        assert_ne!(maze[y][x], Cell::Player);
                    }
                }
            }
        }
    }
}

#[test]
fn quit_changes_nothing() {
    let (mut maze, mut player) = new_level(42);
    apply_command(&mut maze, &mut player, Command::Right);
    let before = maze.clone();
    let at = player;
    assert_eq!(apply_command(&mut maze, &mut player, Command::Quit), Outcome::Quit);
    assert_eq!(maze, before);
    assert_eq!(player, at);
    assert_eq!(apply_command(&mut maze, &mut player, Command::Ignore), Outcome::Ignored);
    assert_eq!(maze, before);
}

#[test]
fn keys_map_to_commands() {
    assert_eq!(command_for_key('w'), Command::Up);
    assert_eq!(command_for_key('s'), Command::Down);
    assert_eq!(command_for_key('a'), Command::Left);
    assert_eq!(command_for_key('d'), Command::Right);
    assert_eq!(command_for_key('q'), Command::Quit);
    assert_eq!(command_for_key('x'), Command::Ignore);
}

#[test]
fn moves_report_moved() {
    let (mut maze, mut player) = new_level(42);
    assert_eq!(apply_command(&mut maze, &mut player, Command::Right), Outcome::Moved);
    assert_eq!((player.x, player.y), (2, 1));
    assert_eq!(apply_command(&mut maze, &mut player, Command::Down), Outcome::Moved);
    assert_eq!((player.x, player.y), (2, 1));
    assert_eq!(apply_command(&mut maze, &mut player, Command::Left), Outcome::Moved);
    assert_eq!(apply_command(&mut maze, &mut player, Command::Left), Outcome::Moved);
    assert_eq!((player.x, player.y), (0, 1));
    assert_eq!(maze[1][0], Cell::Player);
    assert_eq!(apply_command(&mut maze, &mut player, Command::Right), Outcome::Moved);
    assert_eq!(maze[1][0], Cell::Path);
    assert_eq!(maze[1][1], Cell::Player);
}

#[test]
fn reaching_goal_is_seen() {
    let (mut maze, mut player) = new_level(42);
    assert!(!at_goal(&maze, &player));
    maze[1][2] = Cell::Goal;
    move_player(&mut maze, &mut player, 1, 0);
    assert_eq!((player.x, player.y), (2, 1));
    assert!(at_goal(&maze, &player));
    assert_eq!(maze[1][1], Cell::Path);
}

#[test]
fn level_is_padded() {
    let (maze, player) = new_level(42);
    assert_eq!(maze.len(), HEIGHT + 1);
    for row in &maze {
        assert_eq!(row.len(), WIDTH + 1);
    }
    for x in 0..=WIDTH {
        assert_eq!(maze[HEIGHT][x], Cell::Path);
    }
    for y in 0..=HEIGHT {
        assert_eq!(maze[y][WIDTH], Cell::Path);
    }
    assert_eq!((player.x, player.y), (1, 1));
    assert_eq!(maze[1][1], Cell::Player);
    assert_eq!(maze[9][20], Cell::Goal);
}

#[test]
fn padding_keeps_cells() {
    let mut maze = carved(7);
    let before = maze.clone();
    add_padding(&mut maze);
    for y in 0..HEIGHT {
        assert_eq!(&maze[y][..WIDTH], &before[y][..]);
    }
}

#[test]
fn glyphs() {
    assert_eq!(glyph(Cell::Wall), '\u{25A0}');
    assert_eq!(glyph(Cell::Path), ' ');
    assert_eq!(glyph(Cell::Start), 'S');
    assert_eq!(glyph(Cell::Goal), 'G');
    assert_eq!(glyph(Cell::Player), '\u{25CF}');
}
