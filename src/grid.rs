use vstd::prelude::*;

verus! {

/// Number of columns (and rows) of the maze.
pub const SIDE: u8 = 8;

/// Number of cells of the maze.
pub const CELLS: usize = 64;

/// The state of one maze cell.
#[derive(Clone, Copy, PartialEq, Eq, Structural, Debug)]
pub enum Cell {
    Wall,
    Path,
    Exit,
    Start,
    Wave,
}

/// The byte tag that stands for a cell in the maze buffer and in snapshots.
pub open spec fn tag_of(c: Cell) -> u8 {
    match c {
        Cell::Wall => 0,
        Cell::Path => 1,
        Cell::Exit => 2,
        Cell::Start => 3,
        Cell::Wave => 4,
    }
}

/// The cell that a tag stands for, if it is one of the five tags.
pub open spec fn cell_of_tag(t: u8) -> Option<Cell> {
    if t == 0 {
        Some(Cell::Wall)
    } else if t == 1 {
        Some(Cell::Path)
    } else if t == 2 {
        Some(Cell::Exit)
    } else if t == 3 {
        Some(Cell::Start)
    } else if t == 4 {
        Some(Cell::Wave)
    } else {
        None
    }
}

impl Cell {
    /// Reads a cell tag; `None` for a byte that is no tag.
    pub fn from_tag(t: u8) -> (r: Option<Cell>)
        ensures
            r == cell_of_tag(t),
    {
        match t {
            0 => Some(Cell::Wall),
            1 => Some(Cell::Path),
            2 => Some(Cell::Exit),
            3 => Some(Cell::Start),
            4 => Some(Cell::Wave),
            _ => None,
        }
    }

    /// The tag of this cell.
    pub fn tag(&self) -> (r: u8)
        ensures
            r == tag_of(*self),
    {
        match self {
            Cell::Wall => 0,
            Cell::Path => 1,
            Cell::Exit => 2,
            Cell::Start => 3,
            Cell::Wave => 4,
        }
    }
}

/// Whether (x, y) lies on the grid.
pub open spec fn in_bounds(x: int, y: int) -> bool {
    0 <= x < SIDE && 0 <= y < SIDE
}

/// The position of (x, y) in the row-major cell sequence.
pub open spec fn index_of(x: int, y: int) -> int {
    y * SIDE + x
}

/// Whether a fork may move onto (x, y): on the grid and not a wall.
pub open spec fn open_at(grid: Seq<Cell>, x: int, y: int) -> bool {
    in_bounds(x, y) && grid[index_of(x, y)] != Cell::Wall
}

/// `b` is `a` with some Path cells turned into Wave cells, and nothing else changed.
pub open spec fn grid_grows(a: Seq<Cell>, b: Seq<Cell>) -> bool {
    &&& b.len() == a.len()
    &&& forall|i: int|
        0 <= i < a.len() ==> #[trigger] b[i] == a[i] || (a[i] == Cell::Path && b[i] == Cell::Wave)
}

/// Growth keeps every wall where it was, so a cell is open before exactly when after.
pub proof fn lemma_grows_keeps_open(a: Seq<Cell>, b: Seq<Cell>, x: int, y: int)
    requires
        a.len() == CELLS,
        grid_grows(a, b),
    ensures
        open_at(a, x, y) == open_at(b, x, y),
{
    if in_bounds(x, y) {
        assert(b[index_of(x, y)] == a[index_of(x, y)] || (a[index_of(x, y)] == Cell::Path
            && b[index_of(x, y)] == Cell::Wave));
    }
}

/// Growth composes.
pub proof fn lemma_grows_trans(a: Seq<Cell>, b: Seq<Cell>, c: Seq<Cell>)
    requires
        grid_grows(a, b),
        grid_grows(b, c),
    ensures
        grid_grows(a, c),
{
    assert forall|i: int| 0 <= i < a.len() implies #[trigger] c[i] == a[i] || (a[i] == Cell::Path
        && c[i] == Cell::Wave) by {
        assert(b[i] == a[i] || (a[i] == Cell::Path && b[i] == Cell::Wave));
        assert(c[i] == b[i] || (b[i] == Cell::Path && c[i] == Cell::Wave));
    }
}

} // verus!
