use vstd::prelude::*;

use crate::grid::{
    cell_at, grows, in_grid, is_shaped, lemma_grows_put, lemma_grows_trans, put, rows, set_cell, Cell,
    HEIGHT, WIDTH,
};
use crate::rng::{next_seed, next_state};

verus! {

/// Column step of direction `d`: north, east, south, west in that order.
pub open spec fn step_x(d: int) -> int {
    if d == 1 {
        1
    } else if d == 3 {
        -1
    } else {
        0
    }
}

/// Row step of direction `d`: north, east, south, west in that order.
pub open spec fn step_y(d: int) -> int {
    if d == 0 {
        -1
    } else if d == 2 {
        1
    } else {
        0
    }
}

/// `a` with the entries at `i` and `j` exchanged.
pub open spec fn swapped(a: Seq<usize>, i: int, j: int) -> Seq<usize> {
    a.update(i, a[j]).update(j, a[i])
}

/// The order in which the carver tries the four directions from a cell, for `seed`:
/// entries 3, 2 and 1 are each exchanged with an entry at or below them, picked by
/// successive states of the generator.
pub open spec fn direction_order(seed: int) -> Seq<usize> {
    let r1 = next_state(seed);
    let r2 = next_state(r1);
    let r3 = next_state(r2);
    let a1 = swapped(seq![0usize, 1usize, 2usize, 3usize], 3, r1 % 4);
    let a2 = swapped(a1, 2, r2 % 3);
    swapped(a2, 1, r3 % 2)
}

/// The state handed on to the cells carved from a cell entered with `seed`.
pub open spec fn child_seed(seed: int) -> int {
    next_state(next_state(next_state(seed)))
}

/// Shuffles the four directions for one cell, returning the order and the advanced state.
pub fn shuffle_directions(seed: u64) -> (r: (Vec<usize>, u64))
    ensures
        r.0@ == direction_order(seed as int),
        r.1 == child_seed(seed as int),
        forall|k: int| 0 <= k < 4 ==> #[trigger] r.0@[k] < 4,
{
    let mut order: Vec<usize> = vec![0, 1, 2, 3];
    let mut rng = seed;
    let mut i: usize = 3;
    while i >= 1
        invariant
            1 <= i + 1 <= 4,
            order@.len() == 4,
            i == 3 ==> order@ == seq![0usize, 1usize, 2usize, 3usize] && rng == seed,
            i == 2 ==> order@ == swapped(seq![0usize, 1usize, 2usize, 3usize], 3, next_state(seed as int) % 4)
                && rng == next_state(seed as int),
            i == 1 ==> order@ == swapped(
                swapped(seq![0usize, 1usize, 2usize, 3usize], 3, next_state(seed as int) % 4),
                2,
                next_state(next_state(seed as int)) % 3,
            ) && rng == next_state(next_state(seed as int)),
            i == 0 ==> order@ == direction_order(seed as int) && rng == child_seed(seed as int),
        decreases i,
    {
        rng = next_seed(rng);
        let j = (rng % (i as u64 + 1)) as usize;
        let a = order[i];
        let b = order[j];
        order.set(i, b);
        order.set(j, a);
        i = i - 1;
    }
    assert(order@ == direction_order(seed as int));
    (order, rng)
}

/// The walls of a maze of `WIDTH` by `HEIGHT` cells, by column and row.
pub open spec fn walls(g: Seq<Seq<Cell>>) -> Set<(int, int)> {
    Set::new(|p: (int, int)| in_grid(p.0, p.1, WIDTH as int, HEIGHT as int) && g[p.1][p.0] == Cell::Wall)
}

/// What the carver has left to do from column `x`, row `y`: fewer walls, or the same
/// walls with that cell already carved.
pub open spec fn carve_measure(g: Seq<Seq<Cell>>, x: int, y: int) -> nat {
    walls(g).len() + if g[y][x] == Cell::Wall {
        0nat
    } else {
        1nat
    }
}

proof fn lemma_walls_finite(g: Seq<Seq<Cell>>)
    ensures
        walls(g).finite(),
{
    let w = WIDTH as int;
    let range = vstd::set_lib::set_int_range(0, w * HEIGHT as int);
    let f = |i: int| (i % w, i / w);
    vstd::set_lib::lemma_int_range(0, w * HEIGHT as int);
    range.lemma_map_finite(f);
    assert forall|p: (int, int)| walls(g).contains(p) implies range.map(f).contains(p) by {
        let i = p.1 * w + p.0;
        assert(i % w == p.0 && i / w == p.1);
        assert(range.contains(i));
    }
    vstd::set_lib::lemma_set_subset_finite(range.map(f), walls(g));
}

proof fn lemma_carve_measure_drops(start: Seq<Seq<Cell>>, cur: Seq<Seq<Cell>>, x: int, y: int, nx: int, ny: int)
    requires
        grows(start, cur, WIDTH as int, HEIGHT as int),
        in_grid(x, y, WIDTH as int, HEIGHT as int),
        in_grid(nx, ny, WIDTH as int, HEIGHT as int),
        cur[y][x] == Cell::Path,
        cur[ny][nx] == Cell::Wall,
    ensures
        carve_measure(cur, nx, ny) < carve_measure(start, x, y),
{
    lemma_walls_finite(start);
    lemma_walls_finite(cur);
    assert(walls(cur).subset_of(walls(start)));
    if start[y][x] == Cell::Wall {
        assert(walls(cur).subset_of(walls(start).remove((x, y))));
        vstd::set_lib::lemma_len_subset(walls(cur), walls(start).remove((x, y)));
    } else {
        vstd::set_lib::lemma_len_subset(walls(cur), walls(start));
    }
}

/// Column `nx`, row `ny` may be carved into: it lies strictly inside the grid and is still
/// a wall.
pub open spec fn can_carve(g: Seq<Seq<Cell>>, nx: int, ny: int) -> bool {
    0 < nx < WIDTH && 0 < ny < HEIGHT && g[ny][nx] == Cell::Wall
}

/// What carving from column `x`, row `y` with `seed` makes of `g`, given `fuel` levels of
/// recursion: the cell becomes a path, then each direction is tried in turn.
pub open spec fn carve_spec(g: Seq<Seq<Cell>>, x: int, y: int, seed: int, fuel: nat) -> Seq<Seq<Cell>>
    decreases fuel, 0int,
{
    if fuel == 0 {
        g
    } else {
        carve_each(
            put(g, x, y, Cell::Path),
            x,
            y,
            direction_order(seed),
            child_seed(seed),
            0,
            (fuel - 1) as nat,
        )
    }
}

/// Tries directions `k`, `k + 1`, .. of `order` from column `x`, row `y`: where the cell two
/// steps away can be carved, the cell between becomes a path and carving goes on from there
/// with `rng`.
pub open spec fn carve_each(
    g: Seq<Seq<Cell>>,
    x: int,
    y: int,
    order: Seq<usize>,
    rng: int,
    k: nat,
    fuel: nat,
) -> Seq<Seq<Cell>>
    decreases fuel, 4 - k,
{
    if k >= 4 {
        g
    } else {
        let d = order[k as int] as int;
        let nx = x + 2 * step_x(d);
        let ny = y + 2 * step_y(d);
        let g2 = if can_carve(g, nx, ny) {
            carve_spec(put(g, x + step_x(d), y + step_y(d), Cell::Path), nx, ny, rng, fuel)
        } else {
            g
        };
        carve_each(g2, x, y, order, rng, k + 1, fuel)
    }
}

/// `fin` is the grid that carving `g` from column `x`, row `y` with `seed` yields, for every
/// fuel above what the carving can use up.
#[verifier::opaque]
pub open spec fn is_carving_of(g: Seq<Seq<Cell>>, fin: Seq<Seq<Cell>>, x: int, y: int, seed: int) -> bool {
    forall|fuel: nat| fuel > carve_measure(g, x, y) ==> fin == #[trigger] carve_spec(g, x, y, seed, fuel)
}

/// Carving is deterministic: from the same grid, cell and seed, two carvings give the same grid.
pub proof fn lemma_carve_deterministic(
    g: Seq<Seq<Cell>>,
    fin1: Seq<Seq<Cell>>,
    fin2: Seq<Seq<Cell>>,
    x: int,
    y: int,
    seed: int,
)
    requires
        is_carving_of(g, fin1, x, y, seed),
        is_carving_of(g, fin2, x, y, seed),
    ensures
        fin1 == fin2,
{
    reveal(is_carving_of);
    let fuel = carve_measure(g, x, y) + 1;
    assert(fin1 == carve_spec(g, x, y, seed, fuel));
}

/// Trying directions `k`, `k + 1`, .. on `cur` ends where trying all of them on `start`,
/// carved at column `x`, row `y`, ends, for every fuel that carving from there may need.
#[verifier::opaque]
pub open spec fn each_agrees(
    start: Seq<Seq<Cell>>,
    x: int,
    y: int,
    order: Seq<usize>,
    rng: int,
    k: nat,
    cur: Seq<Seq<Cell>>,
) -> bool {
    forall|e: nat|
        e >= carve_measure(start, x, y) ==> #[trigger] carve_each(
            put(start, x, y, Cell::Path),
            x,
            y,
            order,
            rng,
            0,
            e,
        ) == carve_each(cur, x, y, order, rng, k, e)
}

proof fn lemma_each_skipped(
    start: Seq<Seq<Cell>>,
    x: int,
    y: int,
    order: Seq<usize>,
    rng: int,
    k: nat,
    cur: Seq<Seq<Cell>>,
)
    requires
        k < 4,
        each_agrees(start, x, y, order, rng, k, cur),
        !can_carve(cur, x + 2 * step_x(order[k as int] as int), y + 2 * step_y(order[k as int] as int)),
    ensures
        each_agrees(start, x, y, order, rng, k + 1, cur),
{
    reveal(each_agrees);
    assert forall|e: nat| e >= carve_measure(start, x, y) implies #[trigger] carve_each(
        put(start, x, y, Cell::Path),
        x,
        y,
        order,
        rng,
        0,
        e,
    ) == carve_each(cur, x, y, order, rng, k + 1, e) by {
        assert(carve_each(cur, x, y, order, rng, k, e) == carve_each(cur, x, y, order, rng, k + 1, e));
    }
}

proof fn lemma_each_carved(
    start: Seq<Seq<Cell>>,
    x: int,
    y: int,
    order: Seq<usize>,
    rng: int,
    k: nat,
    cur: Seq<Seq<Cell>>,
    mid: Seq<Seq<Cell>>,
    fin: Seq<Seq<Cell>>,
)
    requires
        k < 4,
        each_agrees(start, x, y, order, rng, k, cur),
        can_carve(cur, x + 2 * step_x(order[k as int] as int), y + 2 * step_y(order[k as int] as int)),
        mid == put(cur, x + step_x(order[k as int] as int), y + step_y(order[k as int] as int), Cell::Path),
        carve_measure(mid, x + 2 * step_x(order[k as int] as int), y + 2 * step_y(order[k as int] as int))
            < carve_measure(start, x, y),
        is_carving_of(mid, fin, x + 2 * step_x(order[k as int] as int), y + 2 * step_y(order[k as int] as int), rng),
    ensures
        each_agrees(start, x, y, order, rng, k + 1, fin),
{
    reveal(each_agrees);
    reveal(is_carving_of);
    let d = order[k as int] as int;
    let nx = x + 2 * step_x(d);
    let ny = y + 2 * step_y(d);
    assert forall|e: nat| e >= carve_measure(start, x, y) implies #[trigger] carve_each(
        put(start, x, y, Cell::Path),
        x,
        y,
        order,
        rng,
        0,
        e,
    ) == carve_each(fin, x, y, order, rng, k + 1, e) by {
        assert(fin == carve_spec(mid, nx, ny, rng, e));
        assert(carve_each(cur, x, y, order, rng, k, e) == carve_each(fin, x, y, order, rng, k + 1, e));
    }
}

proof fn lemma_each_begin(start: Seq<Seq<Cell>>, x: int, y: int, order: Seq<usize>, rng: int)
    ensures
        each_agrees(start, x, y, order, rng, 0, put(start, x, y, Cell::Path)),
{
    reveal(each_agrees);
}

proof fn lemma_each_done(start: Seq<Seq<Cell>>, fin: Seq<Seq<Cell>>, x: int, y: int, seed: int)
    requires
        each_agrees(start, x, y, direction_order(seed), child_seed(seed), 4, fin),
    ensures
        is_carving_of(start, fin, x, y, seed),
{
    reveal(each_agrees);
    reveal(is_carving_of);
    assert forall|fuel: nat| fuel > carve_measure(start, x, y) implies fin == #[trigger] carve_spec(
        start,
        x,
        y,
        seed,
        fuel,
    ) by {
        let e = (fuel - 1) as nat;
        let order = direction_order(seed);
        let rng = child_seed(seed);
        assert(carve_spec(start, x, y, seed, fuel) == carve_each(put(start, x, y, Cell::Path), x, y, order, rng, 0, e));
        assert(e >= carve_measure(start, x, y));
        assert(carve_each(put(start, x, y, Cell::Path), x, y, order, rng, 0, e) == carve_each(fin, x, y, order, rng, 4, e));
        assert(carve_each(fin, x, y, order, rng, 4, e) == fin);
    }
}

/// Cells `a` and `b` share a side.
pub open spec fn adjacent(a: (int, int), b: (int, int)) -> bool {
    ||| a.0 == b.0 && (a.1 - b.1 == 1 || b.1 - a.1 == 1)
    ||| a.1 == b.1 && (a.0 - b.0 == 1 || b.0 - a.0 == 1)
}

/// `s` is a walk over path cells of the `WIDTH` by `HEIGHT` area of `g`, each step to a
/// cell that shares a side with the one before.
pub open spec fn is_path_walk(g: Seq<Seq<Cell>>, s: Seq<(int, int)>) -> bool {
    &&& s.len() >= 1
    &&& forall|i: int|
        0 <= i < s.len() ==> in_grid(#[trigger] s[i].0, s[i].1, WIDTH as int, HEIGHT as int)
            && g[s[i].1][s[i].0] == Cell::Path
    &&& forall|i: int| 0 <= i < s.len() - 1 ==> adjacent(#[trigger] s[i], s[i + 1])
}

/// A walk over path cells of `g` leads from `a` to `b`.
pub open spec fn connected(g: Seq<Seq<Cell>>, a: (int, int), b: (int, int)) -> bool {
    exists|s: Seq<(int, int)>| #[trigger] is_path_walk(g, s) && s[0] == a && s.last() == b
}

/// Every cell of the `WIDTH` by `HEIGHT` area that is a path in `g` but was none in `start`
/// is connected in `g` to column `x`, row `y`.
#[verifier::opaque]
pub open spec fn carved_from(start: Seq<Seq<Cell>>, g: Seq<Seq<Cell>>, x: int, y: int) -> bool {
    forall|a: int, b: int|
        in_grid(a, b, WIDTH as int, HEIGHT as int) && #[trigger] g[b][a] == Cell::Path && start[b][a]
            != Cell::Path ==> connected(g, (x, y), (a, b))
}

/// In a maze carved from an all-wall grid starting at column `x`, row `y`, every path cell
/// is joined to that cell by a walk over path cells: the carving leaves no isolated pocket.
pub proof fn lemma_fresh_carving_connected(g: Seq<Seq<Cell>>, fin: Seq<Seq<Cell>>, x: int, y: int)
    requires
        forall|a: int, b: int| in_grid(a, b, WIDTH as int, HEIGHT as int) ==> #[trigger] g[b][a] == Cell::Wall,
        carved_from(g, fin, x, y),
    ensures
        forall|a: int, b: int|
            in_grid(a, b, WIDTH as int, HEIGHT as int) && #[trigger] fin[b][a] == Cell::Path ==> connected(
                fin,
                (x, y),
                (a, b),
            ),
{
    reveal(carved_from);
    assert forall|a: int, b: int|
        in_grid(a, b, WIDTH as int, HEIGHT as int) && #[trigger] fin[b][a] == Cell::Path implies connected(
            fin,
            (x, y),
            (a, b),
        ) by {
        assert(g[b][a] == Cell::Wall);
    }
}

proof fn lemma_connected_grows(g1: Seq<Seq<Cell>>, g2: Seq<Seq<Cell>>, a: (int, int), b: (int, int))
    requires
        grows(g1, g2, WIDTH as int, HEIGHT as int),
        connected(g1, a, b),
    ensures
        connected(g2, a, b),
{
    let s = choose|s: Seq<(int, int)>| #[trigger] is_path_walk(g1, s) && s[0] == a && s.last() == b;
    assert forall|i: int| 0 <= i < s.len() implies in_grid(#[trigger] s[i].0, s[i].1, WIDTH as int, HEIGHT as int)
        && g2[s[i].1][s[i].0] == Cell::Path by {
        assert(in_grid(s[i].0, s[i].1, WIDTH as int, HEIGHT as int));
    }
    assert(is_path_walk(g2, s));
}

proof fn lemma_connected_extend(
    g: Seq<Seq<Cell>>,
    p: (int, int),
    m: (int, int),
    q: (int, int),
    b: (int, int),
)
    requires
        in_grid(p.0, p.1, WIDTH as int, HEIGHT as int),
        in_grid(m.0, m.1, WIDTH as int, HEIGHT as int),
        g[p.1][p.0] == Cell::Path,
        g[m.1][m.0] == Cell::Path,
        adjacent(p, m),
        adjacent(m, q),
        connected(g, q, b),
    ensures
        connected(g, p, b),
{
    let s = choose|s: Seq<(int, int)>| #[trigger] is_path_walk(g, s) && s[0] == q && s.last() == b;
    let t = seq![p, m] + s;
    assert forall|i: int| 0 <= i < t.len() implies in_grid(#[trigger] t[i].0, t[i].1, WIDTH as int, HEIGHT as int)
        && g[t[i].1][t[i].0] == Cell::Path by {
        if i >= 2 {
            assert(t[i] == s[i - 2]);
        }
    }
    assert forall|i: int| 0 <= i < t.len() - 1 implies adjacent(#[trigger] t[i], t[i + 1]) by {
        if i >= 2 {
            assert(t[i] == s[i - 2] && t[i + 1] == s[i - 1]);
        }
    }
    assert(is_path_walk(g, t));
    assert(t.last() == b);
}

proof fn lemma_carved_from_first(start: Seq<Seq<Cell>>, x: int, y: int)
    requires
        is_shaped(start, WIDTH as int, HEIGHT as int),
        in_grid(x, y, WIDTH as int, HEIGHT as int),
    ensures
        carved_from(start, put(start, x, y, Cell::Path), x, y),
{
    reveal(carved_from);
    let g = put(start, x, y, Cell::Path);
    let s = seq![(x, y)];
    assert(is_path_walk(g, s));
    assert forall|a: int, b: int|
        in_grid(a, b, WIDTH as int, HEIGHT as int) && #[trigger] g[b][a] == Cell::Path && start[b][a]
            != Cell::Path implies connected(g, (x, y), (a, b)) by {
        assert(a == x && b == y);
        assert(s[0] == (x, y) && s.last() == (a, b));
    }
}

proof fn lemma_carved_from_link(
    start: Seq<Seq<Cell>>,
    before: Seq<Seq<Cell>>,
    x: int,
    y: int,
    mx: int,
    my: int,
)
    requires
        is_shaped(before, WIDTH as int, HEIGHT as int),
        in_grid(x, y, WIDTH as int, HEIGHT as int),
        in_grid(mx, my, WIDTH as int, HEIGHT as int),
        adjacent((x, y), (mx, my)),
        before[y][x] == Cell::Path,
        carved_from(start, before, x, y),
    ensures
        carved_from(start, put(before, mx, my, Cell::Path), x, y),
{
    reveal(carved_from);
    let g = put(before, mx, my, Cell::Path);
    lemma_grows_put(before, mx, my, WIDTH as int, HEIGHT as int);
    let s = seq![(x, y), (mx, my)];
    assert(is_path_walk(g, s));
    assert forall|a: int, b: int|
        in_grid(a, b, WIDTH as int, HEIGHT as int) && #[trigger] g[b][a] == Cell::Path && start[b][a]
            != Cell::Path implies connected(g, (x, y), (a, b)) by {
        if a == mx && b == my {
            assert(s[0] == (x, y) && s.last() == (a, b));
        } else {
            assert(before[b][a] == Cell::Path);
            lemma_connected_grows(before, g, (x, y), (a, b));
        }
    }
}

proof fn lemma_carved_from_child(
    start: Seq<Seq<Cell>>,
    mid: Seq<Seq<Cell>>,
    fin: Seq<Seq<Cell>>,
    x: int,
    y: int,
    mx: int,
    my: int,
    nx: int,
    ny: int,
)
    requires
        in_grid(x, y, WIDTH as int, HEIGHT as int),
        in_grid(mx, my, WIDTH as int, HEIGHT as int),
        adjacent((x, y), (mx, my)),
        adjacent((mx, my), (nx, ny)),
        mid[y][x] == Cell::Path,
        mid[my][mx] == Cell::Path,
        grows(mid, fin, WIDTH as int, HEIGHT as int),
        carved_from(start, mid, x, y),
        carved_from(mid, fin, nx, ny),
    ensures
        carved_from(start, fin, x, y),
{
    reveal(carved_from);
    assert(fin[y][x] == Cell::Path);
    assert(fin[my][mx] == Cell::Path);
    assert forall|a: int, b: int|
        in_grid(a, b, WIDTH as int, HEIGHT as int) && #[trigger] fin[b][a] == Cell::Path && start[b][a]
            != Cell::Path implies connected(fin, (x, y), (a, b)) by {
        if mid[b][a] == Cell::Path {
            lemma_connected_grows(mid, fin, (x, y), (a, b));
        } else {
            lemma_connected_extend(fin, (x, y), (mx, my), (nx, ny), (a, b));
        }
    }
}

/// Carves a maze from column `x`, row `y`: marks that cell as a path, then, in the order
/// that `seed` gives, for each direction whose cell two steps away lies strictly inside
/// the grid and is still a wall, carves the cell between and carves on from there with the
/// advanced state.
pub fn generate_maze(maze: &mut Vec<Vec<Cell>>, x: usize, y: usize, seed: u64)
    requires
        is_shaped(rows(old(maze)@), WIDTH as int, HEIGHT as int),
        x < WIDTH,
        y < HEIGHT,
    ensures
        is_shaped(rows(final(maze)@), WIDTH as int, HEIGHT as int),
        rows(final(maze)@)[y as int][x as int] == Cell::Path,
        grows(rows(old(maze)@), rows(final(maze)@), WIDTH as int, HEIGHT as int),
        carved_from(rows(old(maze)@), rows(final(maze)@), x as int, y as int),
        is_carving_of(rows(old(maze)@), rows(final(maze)@), x as int, y as int, seed as int),
    decreases carve_measure(rows(old(maze)@), x as int, y as int),
{
    let ghost start = rows(maze@);
    let (order, rng) = shuffle_directions(seed);
    set_cell(maze, x, y, Cell::Path);
    proof {
        lemma_grows_put(start, x as int, y as int, WIDTH as int, HEIGHT as int);
        lemma_carved_from_first(start, x as int, y as int);
        lemma_each_begin(start, x as int, y as int, order@, rng as int);
    }
    let mut k: usize = 0;
    while k < 4
        invariant
            k <= 4,
            order@.len() == 4,
            forall|i: int| 0 <= i < 4 ==> #[trigger] order@[i] < 4,
            start == rows(old(maze)@),
            is_shaped(rows(maze@), WIDTH as int, HEIGHT as int),
            rows(maze@)[y as int][x as int] == Cell::Path,
            grows(start, rows(maze@), WIDTH as int, HEIGHT as int),
            carved_from(start, rows(maze@), x as int, y as int),
            order@ == direction_order(seed as int),
            rng == child_seed(seed as int),
            each_agrees(start, x as int, y as int, order@, rng as int, k as nat, rows(maze@)),
            x < WIDTH,
            y < HEIGHT,
        decreases 4 - k,
    {
        let d = order[k];
        let dx: i32 = if d == 1 {
            1
        } else if d == 3 {
            -1
        } else {
            0
        };
        let dy: i32 = if d == 0 {
            -1
        } else if d == 2 {
            1
        } else {
            0
        };
        let nx: i32 = x as i32 + dx * 2;
        let ny: i32 = y as i32 + dy * 2;
        let ghost cur = rows(maze@);
        assert(dx == step_x(d as int) && dy == step_y(d as int));
        if nx > 0 && nx < WIDTH as i32 && ny > 0 && ny < HEIGHT as i32
            && cell_at(maze, nx as usize, ny as usize) == Cell::Wall {
            let mx = (x as i32 + dx) as usize;
            let my = (y as i32 + dy) as usize;
            let ghost before = rows(maze@);
            set_cell(maze, mx, my, Cell::Path);
            proof {
                lemma_grows_put(before, mx as int, my as int, WIDTH as int, HEIGHT as int);
                lemma_grows_trans(start, before, rows(maze@), WIDTH as int, HEIGHT as int);
                lemma_carved_from_link(start, before, x as int, y as int, mx as int, my as int);
            }
            proof {
                lemma_carve_measure_drops(start, rows(maze@), x as int, y as int, nx as int, ny as int);
            }
            let ghost mid = rows(maze@);
            generate_maze(maze, nx as usize, ny as usize, rng);
            proof {
                lemma_grows_trans(start, mid, rows(maze@), WIDTH as int, HEIGHT as int);
                lemma_carved_from_child(
                    start,
                    mid,
                    rows(maze@),
                    x as int,
                    y as int,
                    mx as int,
                    my as int,
                    nx as int,
                    ny as int,
                );
                lemma_each_carved(
                    start,
                    x as int,
                    y as int,
                    order@,
                    rng as int,
                    k as nat,
                    cur,
                    mid,
                    rows(maze@),
                );
            }
        } else {
            proof {
                lemma_each_skipped(start, x as int, y as int, order@, rng as int, k as nat, cur);
            }
        }
        k = k + 1;
    }
    proof {
        lemma_each_done(start, rows(maze@), x as int, y as int, seed as int);
    }
}

} // verus!
