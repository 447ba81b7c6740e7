use vstd::prelude::*;

use crate::grid::{cell_at, in_grid, is_shaped, put, rows, set_cell, Cell, Player, HEIGHT, WIDTH};

verus! {

/// `(dx, dy)` is one of the four unit steps.
pub open spec fn is_step(dx: int, dy: int) -> bool {
    ||| dx == 0 && (dy == 1 || dy == -1)
    ||| dy == 0 && (dx == 1 || dx == -1)
}

/// A move from `p` by `(dx, dy)` is refused: it leaves the `w` by `h` area, or runs into a wall.
pub open spec fn is_blocked(g: Seq<Seq<Cell>>, w: int, h: int, p: Player, dx: int, dy: int) -> bool {
    let nx = p.x + dx;
    let ny = p.y + dy;
    !in_grid(nx, ny, w, h) || g[ny][nx] == Cell::Wall
}

/// The grid after an accepted move from `p` by `(dx, dy)` in a `w` by `h` area with its
/// padding row and column. The old cell goes back to a path unless it is the start or the
/// goal. The new cell shows the player unless it is the goal. On the goal, the player shows
/// on the padding cell beyond it instead when the move started in the last interior row and
/// the next row holds the goal in the new column, or else when it started in the last
/// interior column and the next column holds the goal in the new row.
pub open spec fn moved_grid(g: Seq<Seq<Cell>>, w: int, h: int, p: Player, dx: int, dy: int) -> Seq<Seq<Cell>> {
    let nx = p.x + dx;
    let ny = p.y + dy;
    let here = g[p.y as int][p.x as int];
    let g1 = if here == Cell::Start || here == Cell::Goal {
        g
    } else {
        put(g, p.x as int, p.y as int, Cell::Path)
    };
    if g1[ny][nx] != Cell::Goal {
        put(g1, nx, ny, Cell::Player)
    } else if p.y == h - 2 && g1[p.y + 1][nx] == Cell::Goal {
        put(g1, nx, ny + 1, Cell::Player)
    } else if p.x == w - 2 && g1[ny][p.x + 1] == Cell::Goal {
        put(g1, nx + 1, ny, Cell::Player)
    } else {
        g1
    }
}

/// `(g1, p1)` is what a move by `(dx, dy)` makes of `(g0, p0)`: nothing changes when the
/// move is refused; else the player is one step further and the grid is `moved_grid`.
pub open spec fn step_result(
    g0: Seq<Seq<Cell>>,
    p0: Player,
    g1: Seq<Seq<Cell>>,
    p1: Player,
    w: int,
    h: int,
    dx: int,
    dy: int,
) -> bool {
    &&& is_blocked(g0, w, h, p0, dx, dy) ==> g1 == g0 && p1 == p0
    &&& !is_blocked(g0, w, h, p0, dx, dy) ==> p1.x == p0.x + dx && p1.y == p0.y + dy && g1
        == moved_grid(g0, w, h, p0, dx, dy)
}

/// No cell of the padding row `h` or padding column `w` is a wall.
pub open spec fn padding_open(g: Seq<Seq<Cell>>, w: int, h: int) -> bool {
    &&& forall|x: int| 0 <= x <= w ==> #[trigger] g[h][x] != Cell::Wall
    &&& forall|y: int| 0 <= y <= h ==> #[trigger] g[y][w] != Cell::Wall
}

/// Moves the player one step by `(dx, dy)` in a `width` by `height` area whose grid carries
/// one more padding row and column. A step off the area or into a wall changes nothing.
pub fn move_in(maze: &mut Vec<Vec<Cell>>, width: usize, height: usize, player: &mut Player, dx: i32, dy: i32)
    requires
        is_shaped(rows(old(maze)@), width + 1, height + 1),
        old(player).x < width,
        old(player).y < height,
        is_step(dx as int, dy as int),
    ensures
        is_shaped(rows(final(maze)@), width + 1, height + 1),
        final(player).x < width,
        final(player).y < height,
        step_result(
            rows(old(maze)@),
            *old(player),
            rows(final(maze)@),
            *final(player),
            width as int,
            height as int,
            dx as int,
            dy as int,
        ),
        padding_open(rows(old(maze)@), width as int, height as int) && rows(old(maze)@)[old(
            player,
        ).y as int][old(player).x as int] != Cell::Wall ==> forall|x: int, y: int|
            in_grid(x, y, width + 1, height + 1) && rows(old(maze)@)[y][x] == Cell::Wall
                ==> #[trigger] rows(final(maze)@)[y][x] != Cell::Player,
{
    let px = player.x;
    let py = player.y;
    if (dx < 0 && px == 0) || (dy < 0 && py == 0) {
        return;
    }
    let nx: usize = if dx < 0 {
        px - 1
    } else if dx > 0 {
        px + 1
    } else {
        px
    };
    let ny: usize = if dy < 0 {
        py - 1
    } else if dy > 0 {
        py + 1
    } else {
        py
    };
    if nx >= width || ny >= height {
        return;
    }
    if cell_at(maze, nx, ny) == Cell::Wall {
        return;
    }
    let here = cell_at(maze, px, py);
    if here != Cell::Start && here != Cell::Goal {
        set_cell(maze, px, py, Cell::Path);
    }
    player.x = nx;
    player.y = ny;
    if cell_at(maze, nx, ny) != Cell::Goal {
        set_cell(maze, nx, ny, Cell::Player);
    } else if py + 1 == height - 1 && cell_at(maze, nx, py + 1) == Cell::Goal {
        set_cell(maze, nx, ny + 1, Cell::Player);
    } else if px + 1 == width - 1 && cell_at(maze, px + 1, ny) == Cell::Goal {
        set_cell(maze, nx + 1, ny, Cell::Player);
    }
}

/// Moves the player one step by `(dx, dy)` in the `WIDTH` by `HEIGHT` maze with its padding.
pub fn move_player(maze: &mut Vec<Vec<Cell>>, player: &mut Player, dx: i32, dy: i32)
    requires
        is_shaped(rows(old(maze)@), WIDTH + 1, HEIGHT + 1),
        old(player).x < WIDTH,
        old(player).y < HEIGHT,
        is_step(dx as int, dy as int),
    ensures
        is_shaped(rows(final(maze)@), WIDTH + 1, HEIGHT + 1),
        final(player).x < WIDTH,
        final(player).y < HEIGHT,
        step_result(
            rows(old(maze)@),
            *old(player),
            rows(final(maze)@),
            *final(player),
            WIDTH as int,
            HEIGHT as int,
            dx as int,
            dy as int,
        ),
        padding_open(rows(old(maze)@), WIDTH as int, HEIGHT as int) && rows(old(maze)@)[old(
            player,
        ).y as int][old(player).x as int] != Cell::Wall ==> forall|x: int, y: int|
            in_grid(x, y, WIDTH + 1, HEIGHT + 1) && rows(old(maze)@)[y][x] == Cell::Wall
                ==> #[trigger] rows(final(maze)@)[y][x] != Cell::Player,
{
    move_in(maze, WIDTH, HEIGHT, player, dx, dy);
}

} // verus!
