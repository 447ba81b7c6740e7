use vstd::prelude::*;

use crate::carve::{carve_measure, carve_spec, generate_maze, is_carving_of};
use crate::goal::{goal_position, set_start_and_goal};
use crate::grid::{
    add_padding, cell_at, is_padding_of, is_shaped, new_maze, put, rows, set_cell, wall_grid, Cell,
    Player, HEIGHT, WIDTH,
};
use crate::movement::{move_player, padding_open, step_result};

verus! {

/// What a key asks of the game.
#[derive(Clone, Copy, PartialEq, Eq, Structural, Debug)]
pub enum Command {
    Up,
    Down,
    Left,
    Right,
    Quit,
    Ignore,
}

/// What the game did with a command.
#[derive(Clone, Copy, PartialEq, Eq, Structural, Debug)]
pub enum Outcome {
    /// A move was tried (it may have been refused); the maze is drawn again.
    Moved,
    /// The key means nothing; nothing changed.
    Ignored,
    /// The session ends; nothing changed.
    Quit,
}

/// The command for a key: `w` up, `s` down, `a` left, `d` right, `q` quit.
pub open spec fn command_of(key: char) -> Command {
    if key == 'w' {
        Command::Up
    } else if key == 's' {
        Command::Down
    } else if key == 'a' {
        Command::Left
    } else if key == 'd' {
        Command::Right
    } else if key == 'q' {
        Command::Quit
    } else {
        Command::Ignore
    }
}

/// The step `(dx, dy)` of a move command.
pub open spec fn step_of(c: Command) -> (int, int) {
    match c {
        Command::Up => (0, -1),
        Command::Down => (0, 1),
        Command::Left => (-1, 0),
        Command::Right => (1, 0),
        _ => (0, 0),
    }
}

/// Whether `c` asks for a move.
pub open spec fn is_move(c: Command) -> bool {
    c == Command::Up || c == Command::Down || c == Command::Left || c == Command::Right
}

/// Reads a key as a command.
pub fn command_for_key(key: char) -> (r: Command)
    ensures
        r == command_of(key),
{
    if key == 'w' {
        Command::Up
    } else if key == 's' {
        Command::Down
    } else if key == 'a' {
        Command::Left
    } else if key == 'd' {
        Command::Right
    } else if key == 'q' {
        Command::Quit
    } else {
        Command::Ignore
    }
}

/// Carries out one command on the padded maze: a move goes through `move_player`; quitting
/// and unknown keys leave the maze and the player as they are.
pub fn apply_command(maze: &mut Vec<Vec<Cell>>, player: &mut Player, cmd: Command) -> (r: Outcome)
    requires
        is_shaped(rows(old(maze)@), WIDTH + 1, HEIGHT + 1),
        old(player).x < WIDTH,
        old(player).y < HEIGHT,
    ensures
        is_shaped(rows(final(maze)@), WIDTH + 1, HEIGHT + 1),
        final(player).x < WIDTH,
        final(player).y < HEIGHT,
        cmd == Command::Quit ==> r == Outcome::Quit,
        cmd == Command::Ignore ==> r == Outcome::Ignored,
        !is_move(cmd) ==> rows(final(maze)@) == rows(old(maze)@) && *final(player) == *old(player),
        is_move(cmd) ==> r == Outcome::Moved && step_result(
            rows(old(maze)@),
            *old(player),
            rows(final(maze)@),
            *final(player),
            WIDTH as int,
            HEIGHT as int,
            step_of(cmd).0,
            step_of(cmd).1,
        ),
{
    match cmd {
        Command::Up => {
            move_player(maze, player, 0, -1);
            Outcome::Moved
        },
        Command::Down => {
            move_player(maze, player, 0, 1);
            Outcome::Moved
        },
        Command::Left => {
            move_player(maze, player, -1, 0);
            Outcome::Moved
        },
        Command::Right => {
            move_player(maze, player, 1, 0);
            Outcome::Moved
        },
        Command::Quit => Outcome::Quit,
        Command::Ignore => Outcome::Ignored,
    }
}

/// Whether the player stands on the goal, which ends the session.
pub fn at_goal(maze: &Vec<Vec<Cell>>, player: &Player) -> (r: bool)
    requires
        is_shaped(rows(maze@), WIDTH + 1, HEIGHT + 1),
        player.x < WIDTH,
        player.y < HEIGHT,
    ensures
        r == (rows(maze@)[player.y as int][player.x as int] == Cell::Goal),
{
    cell_at(maze, player.x, player.y) == Cell::Goal
}

/// The maze carved from `(1, 1)` with `seed` in a grid of walls.
pub open spec fn carved_maze(seed: int) -> Seq<Seq<Cell>> {
    carve_spec(wall_grid(), 1, 1, seed, carve_measure(wall_grid(), 1, 1) + 1)
}

/// The level for `seed` before padding: the carved maze with the start, the goal and the
/// player marked, in that order.
pub open spec fn level_of(seed: int) -> Seq<Seq<Cell>> {
    let c = carved_maze(seed);
    let goal = goal_position(c, seed);
    put(put(put(c, 0, 1, Cell::Start), goal.0, goal.1, Cell::Goal), 1, 1, Cell::Player)
}

/// Builds a level from `seed`: carves a maze from `(1, 1)`, marks the start and the goal,
/// puts the player on `(1, 1)` and appends the padding row and column.
pub fn new_level(seed: u64) -> (r: (Vec<Vec<Cell>>, Player))
    ensures
        is_padding_of(rows(r.0@), level_of(seed as int), WIDTH as int, HEIGHT as int),
        is_shaped(rows(r.0@), WIDTH + 1, HEIGHT + 1),
        padding_open(rows(r.0@), WIDTH as int, HEIGHT as int),
        r.1 == (Player { x: 1, y: 1 }),
        rows(r.0@)[1][0] == Cell::Start,
        rows(r.0@)[1][1] == Cell::Player,
{
    let mut maze = new_maze();
    generate_maze(&mut maze, 1, 1, seed);
    proof {
        reveal(is_carving_of);
        assert(rows(maze@) == carved_maze(seed as int));
    }
    set_start_and_goal(&mut maze, seed);
    let player = Player { x: 1, y: 1 };
    set_cell(&mut maze, player.x, player.y, Cell::Player);
    add_padding(&mut maze);
    (maze, player)
}

} // verus!
