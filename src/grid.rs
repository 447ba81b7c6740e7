use vstd::prelude::*;

verus! {

/// Width of the generated maze, in cells.
pub const WIDTH: usize = 21;

/// Height of the generated maze, in cells.
pub const HEIGHT: usize = 11;

/// What occupies one grid coordinate.
#[derive(Clone, Copy, PartialEq, Eq, Structural, Debug)]
pub enum Cell {
    Wall,
    Path,
    Start,
    Goal,
    Player,
}

/// The player's position: column `x`, row `y`.
#[derive(Clone, Copy, PartialEq, Eq, Structural, Debug)]
pub struct Player {
    pub x: usize,
    pub y: usize,
}

/// The cells of a maze, row by row.
pub open spec fn rows(maze: Seq<Vec<Cell>>) -> Seq<Seq<Cell>> {
    maze.map_values(|r: Vec<Cell>| r@)
}

/// `g` has `h` rows of `w` cells each.
pub open spec fn is_shaped(g: Seq<Seq<Cell>>, w: int, h: int) -> bool {
    &&& g.len() == h
    &&& forall|y: int| 0 <= y < h ==> #[trigger] g[y].len() == w
}

/// `g` with the cell at column `x`, row `y` replaced by `c`.
pub open spec fn put(g: Seq<Seq<Cell>>, x: int, y: int, c: Cell) -> Seq<Seq<Cell>> {
    g.update(y, g[y].update(x, c))
}

/// Column `x`, row `y` lies in a grid of `w` by `h` cells.
pub open spec fn in_grid(x: int, y: int, w: int, h: int) -> bool {
    0 <= x < w && 0 <= y < h
}

/// `b` is `a` with some cells of its `w` by `h` area carved into paths, and nothing else changed.
pub open spec fn grows(a: Seq<Seq<Cell>>, b: Seq<Seq<Cell>>, w: int, h: int) -> bool {
    forall|x: int, y: int|
        in_grid(x, y, w, h) ==> #[trigger] b[y][x] == a[y][x] || b[y][x] == Cell::Path
}

/// Carving is transitive.
pub proof fn lemma_grows_trans(a: Seq<Seq<Cell>>, b: Seq<Seq<Cell>>, c: Seq<Seq<Cell>>, w: int, h: int)
    requires
        grows(a, b, w, h),
        grows(b, c, w, h),
    ensures
        grows(a, c, w, h),
{
    assert forall|x: int, y: int| in_grid(x, y, w, h) implies #[trigger] c[y][x] == a[y][x]
        || c[y][x] == Cell::Path by {
        assert(b[y][x] == a[y][x] || b[y][x] == Cell::Path);
        assert(c[y][x] == b[y][x] || c[y][x] == Cell::Path);
    }
}

/// Carving one cell of a shaped grid is growth.
pub proof fn lemma_grows_put(g: Seq<Seq<Cell>>, x: int, y: int, w: int, h: int)
    requires
        is_shaped(g, w, h),
        in_grid(x, y, w, h),
    ensures
        grows(g, put(g, x, y, Cell::Path), w, h),
        is_shaped(put(g, x, y, Cell::Path), w, h),
{
}

/// `WIDTH` by `HEIGHT` walls.
pub open spec fn wall_grid() -> Seq<Seq<Cell>> {
    Seq::new(HEIGHT as nat, |y: int| Seq::new(WIDTH as nat, |x: int| Cell::Wall))
}

/// A maze of `WIDTH` by `HEIGHT` cells, all of them walls.
pub fn new_maze() -> (maze: Vec<Vec<Cell>>)
    ensures
        rows(maze@) == wall_grid(),
        is_shaped(rows(maze@), WIDTH as int, HEIGHT as int),
        forall|x: int, y: int|
            0 <= x < WIDTH && 0 <= y < HEIGHT ==> #[trigger] rows(maze@)[y][x] == Cell::Wall,
{
    let mut maze: Vec<Vec<Cell>> = Vec::new();
    let mut y: usize = 0;
    while y < HEIGHT
        invariant
            y <= HEIGHT,
            maze@.len() == y,
            forall|r: int| 0 <= r < y ==> (#[trigger] maze@[r])@.len() == WIDTH,
            forall|r: int, x: int| 0 <= r < y && 0 <= x < WIDTH ==> #[trigger] maze@[r]@[x] == Cell::Wall,
        decreases HEIGHT - y,
    {
        let mut row: Vec<Cell> = Vec::new();
        let mut x: usize = 0;
        while x < WIDTH
            invariant
                x <= WIDTH,
                row@.len() == x,
                forall|i: int| 0 <= i < x ==> row@[i] == Cell::Wall,
            decreases WIDTH - x,
        {
            row.push(Cell::Wall);
            x = x + 1;
        }
        maze.push(row);
        y = y + 1;
    }
    assert(rows(maze@) =~~= wall_grid());
    maze
}

/// Replaces the cell at column `x`, row `y` by `c`.
pub fn set_cell(maze: &mut Vec<Vec<Cell>>, x: usize, y: usize, c: Cell)
    requires
        y < rows(old(maze)@).len(),
        x < rows(old(maze)@)[y as int].len(),
    ensures
        rows(final(maze)@) == put(rows(old(maze)@), x as int, y as int, c),
{
    maze[y][x] = c;
    assert(rows(maze@) =~= put(rows(old(maze)@), x as int, y as int, c));
}

/// The cell at column `x`, row `y`.
pub fn cell_at(maze: &Vec<Vec<Cell>>, x: usize, y: usize) -> (c: Cell)
    requires
        y < rows(maze@).len(),
        x < rows(maze@)[y as int].len(),
    ensures
        c == rows(maze@)[y as int][x as int],
{
    maze[y][x]
}

/// `g` is `a` with a path column appended to each of its `h` rows and a row of `w + 1`
/// paths appended below.
pub open spec fn is_padding_of(g: Seq<Seq<Cell>>, a: Seq<Seq<Cell>>, w: int, h: int) -> bool {
    &&& is_shaped(g, w + 1, h + 1)
    &&& forall|x: int, y: int| in_grid(x, y, w, h) ==> #[trigger] g[y][x] == a[y][x]
    &&& forall|x: int| 0 <= x <= w ==> #[trigger] g[h][x] == Cell::Path
    &&& forall|y: int| 0 <= y <= h ==> #[trigger] g[y][w] == Cell::Path
}

/// Appends the padding: one path cell to each row, then a row of paths.
pub fn add_padding(maze: &mut Vec<Vec<Cell>>)
    requires
        is_shaped(rows(old(maze)@), WIDTH as int, HEIGHT as int),
    ensures
        is_padding_of(rows(final(maze)@), rows(old(maze)@), WIDTH as int, HEIGHT as int),
{
    let ghost start = rows(maze@);
    let mut y: usize = 0;
    while y < HEIGHT
        invariant
            y <= HEIGHT,
            start == rows(old(maze)@),
            is_shaped(start, WIDTH as int, HEIGHT as int),
            rows(maze@).len() == HEIGHT,
            forall|r: int| 0 <= r < y ==> #[trigger] rows(maze@)[r] == start[r].push(Cell::Path),
            forall|r: int| y <= r < HEIGHT ==> #[trigger] rows(maze@)[r] == start[r],
        decreases HEIGHT - y,
    {
        let ghost before = rows(maze@);
        assert(rows(maze@)[y as int] == start[y as int]);
        maze[y].push(Cell::Path);
        assert(rows(maze@) =~= before.update(y as int, start[y as int].push(Cell::Path)));
        y = y + 1;
    }
    let mut last: Vec<Cell> = Vec::new();
    let mut x: usize = 0;
    while x < WIDTH + 1
        invariant
            x <= WIDTH + 1,
            last@.len() == x,
            forall|i: int| 0 <= i < x ==> last@[i] == Cell::Path,
        decreases WIDTH + 1 - x,
    {
        last.push(Cell::Path);
        x = x + 1;
    }
    let ghost before = rows(maze@);
    maze.push(last);
    assert(rows(maze@) =~= before.push(last@));
}

/// The character that shows a cell: a block for a wall, a space for a path, `S`, `G`, and a
/// disc for the player.
pub open spec fn glyph_of(c: Cell) -> char {
    match c {
        Cell::Wall => '\u{25A0}',
        Cell::Path => ' ',
        Cell::Start => 'S',
        Cell::Goal => 'G',
        Cell::Player => '\u{25CF}',
    }
}

/// The character that shows `c`.
pub fn glyph(c: Cell) -> (r: char)
    ensures
        r == glyph_of(c),
{
    match c {
        Cell::Wall => '\u{25A0}',
        Cell::Path => ' ',
        Cell::Start => 'S',
        Cell::Goal => 'G',
        Cell::Player => '\u{25CF}',
    }
}

} // verus!
