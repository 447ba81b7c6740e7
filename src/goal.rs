use vstd::prelude::*;

use crate::grid::{cell_at, in_grid, is_shaped, put, rows, set_cell, Cell, HEIGHT, WIDTH};
use crate::rng::{next_seed, next_state};

verus! {

/// Number of interior cells in one row, `WIDTH - 2`.
pub const INNER_WIDTH: usize = 19;

/// Column of the `i`-th interior cell in row-major order.
pub open spec fn scan_x(i: int) -> int {
    1 + i % (INNER_WIDTH as int)
}

/// Row of the `i`-th interior cell in row-major order.
pub open spec fn scan_y(i: int) -> int {
    1 + i / (INNER_WIDTH as int)
}

/// Manhattan distance of column `x`, row `y` from the first cell `(1, 1)`.
pub open spec fn distance(x: int, y: int) -> int {
    (x - 1) + (y - 1)
}

/// Number of interior cells of the maze.
pub open spec fn interior_count() -> nat {
    (INNER_WIDTH * (HEIGHT - 2)) as nat
}

/// The selection after the first `n` interior cells in row-major order have been looked at,
/// as (best distance, column, row, generator state). A path cell farther than the best
/// replaces it; one as far replaces it when the next generator state is even.
pub open spec fn scan(g: Seq<Seq<Cell>>, n: nat, seed: int) -> (int, int, int, int)
    decreases n,
{
    if n == 0 {
        (0, 1, 1, seed)
    } else {
        let s = scan(g, (n - 1) as nat, seed);
        let x = scan_x(n - 1);
        let y = scan_y(n - 1);
        if g[y][x] != Cell::Path {
            s
        } else if distance(x, y) > s.0 {
            (distance(x, y), x, y, s.3)
        } else if distance(x, y) == s.0 {
            let r = next_state(s.3);
            if r % 2 == 0 {
                (s.0, x, y, r)
            } else {
                (s.0, s.1, s.2, r)
            }
        } else {
            s
        }
    }
}

/// Where the goal goes: the cell that the scan picked, moved one column out when it is in
/// the second-to-last column, or else one row out when it is in the second-to-last row.
pub open spec fn goal_position(g: Seq<Seq<Cell>>, seed: int) -> (int, int) {
    let s = scan(g, interior_count(), seed);
    if s.1 == WIDTH - 2 {
        (s.1 + 1, s.2)
    } else if s.2 == HEIGHT - 2 {
        (s.1, s.2 + 1)
    } else {
        (s.1, s.2)
    }
}

proof fn lemma_scan_position(i: int)
    requires
        0 <= i < interior_count(),
    ensures
        1 <= scan_x(i) <= WIDTH - 2,
        1 <= scan_y(i) <= HEIGHT - 2,
{
}

proof fn lemma_scan(g: Seq<Seq<Cell>>, n: nat, seed: int)
    requires
        n <= interior_count(),
    ensures
        scan(g, n, seed).0 == distance(scan(g, n, seed).1, scan(g, n, seed).2),
        1 <= scan(g, n, seed).1 <= WIDTH - 2,
        1 <= scan(g, n, seed).2 <= HEIGHT - 2,
        forall|i: int|
            0 <= i < n && #[trigger] g[scan_y(i)][scan_x(i)] == Cell::Path ==> distance(
                scan_x(i),
                scan_y(i),
            ) <= scan(g, n, seed).0,
    decreases n,
{
    if n > 0 {
        let k = (n - 1) as nat;
        lemma_scan(g, k, seed);
        lemma_scan_position(k as int);
        let prev = scan(g, k, seed);
        let cur = scan(g, n, seed);
        assert(cur.0 >= prev.0);
        assert forall|i: int|
            0 <= i < n && #[trigger] g[scan_y(i)][scan_x(i)] == Cell::Path implies distance(
                scan_x(i),
                scan_y(i),
            ) <= cur.0 by {
            if i < k {
                assert(distance(scan_x(i), scan_y(i)) <= prev.0);
            }
        }
    }
}

proof fn lemma_scan_index(x: int, y: int)
    requires
        1 <= x <= WIDTH - 2,
        1 <= y <= HEIGHT - 2,
    ensures
        scan_x((y - 1) * (INNER_WIDTH as int) + x - 1) == x,
        scan_y((y - 1) * (INNER_WIDTH as int) + x - 1) == y,
        0 <= (y - 1) * (INNER_WIDTH as int) + x - 1 < interior_count(),
{
}

/// Marks the start at column 0, row 1, and the goal at `goal_position`: the interior path
/// cell farthest from `(1, 1)`, ties broken by the generator from `seed`.
pub fn set_start_and_goal(maze: &mut Vec<Vec<Cell>>, seed: u64)
    requires
        is_shaped(rows(old(maze)@), WIDTH as int, HEIGHT as int),
    ensures
        is_shaped(rows(final(maze)@), WIDTH as int, HEIGHT as int),
        rows(final(maze)@) == put(
            put(rows(old(maze)@), 0, 1, Cell::Start),
            goal_position(rows(old(maze)@), seed as int).0,
            goal_position(rows(old(maze)@), seed as int).1,
            Cell::Goal,
        ),
        rows(final(maze)@)[1][0] == Cell::Start,
        ({
            let (gx, gy) = goal_position(rows(old(maze)@), seed as int);
            &&& 1 <= gx < WIDTH
            &&& 1 <= gy < HEIGHT
            &&& rows(final(maze)@)[gy][gx] == Cell::Goal
            &&& forall|x: int, y: int|
                1 <= x <= WIDTH - 2 && 1 <= y <= HEIGHT - 2 && #[trigger] rows(old(maze)@)[y][x]
                    == Cell::Path ==> distance(x, y) <= distance(gx, gy)
        }),
{
    let ghost g = rows(maze@);
    let mut rng: u64 = seed;
    let mut max_distance: usize = 0;
    let mut gx: usize = 1;
    let mut gy: usize = 1;
    let mut y: usize = 1;
    while y < HEIGHT - 1
        invariant
            1 <= y <= HEIGHT - 1,
            g == rows(maze@),
            is_shaped(g, WIDTH as int, HEIGHT as int),
            scan(g, ((y - 1) * INNER_WIDTH) as nat, seed as int) == (
                max_distance as int,
                gx as int,
                gy as int,
                rng as int,
            ),
        decreases HEIGHT - y,
    {
        let mut x: usize = 1;
        while x < WIDTH - 1
            invariant
                1 <= x <= WIDTH - 1,
                1 <= y < HEIGHT - 1,
                g == rows(maze@),
                is_shaped(g, WIDTH as int, HEIGHT as int),
                scan(g, ((y - 1) * INNER_WIDTH + x - 1) as nat, seed as int) == (
                    max_distance as int,
                    gx as int,
                    gy as int,
                    rng as int,
                ),
            decreases WIDTH - x,
        {
            proof {
                let n = (y - 1) * INNER_WIDTH + x - 1;
                lemma_scan_index(x as int, y as int);
                lemma_scan(g, n as nat, seed as int);
            }
            if cell_at(maze, x, y) == Cell::Path {
                let distance = (x - 1) + (y - 1);
                if distance > max_distance {
                    max_distance = distance;
                    gx = x;
                    gy = y;
                } else if distance == max_distance {
                    rng = next_seed(rng);
                    if rng % 2 == 0 {
                        gx = x;
                        gy = y;
                    }
                }
            }
            x = x + 1;
        }
        y = y + 1;
    }
    proof {
        lemma_scan(g, interior_count(), seed as int);
        assert forall|x: int, y: int|
            1 <= x <= WIDTH - 2 && 1 <= y <= HEIGHT - 2 && #[trigger] g[y][x] == Cell::Path implies distance(
                x,
                y,
            ) <= distance(goal_position(g, seed as int).0, goal_position(g, seed as int).1) by {
            lemma_scan_index(x, y);
        }
    }
    if gx == WIDTH - 2 {
        gx = gx + 1;
    } else if gy == HEIGHT - 2 {
        gy = gy + 1;
    }
    set_cell(maze, 0, 1, Cell::Start);
    set_cell(maze, gx, gy, Cell::Goal);
}

} // verus!
