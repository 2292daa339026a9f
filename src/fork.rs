use vstd::prelude::*;
use crate::grid::{Cell, CELLS, SIDE, in_bounds, open_at};

verus! {

/// Parent index of a fork that branched from no other fork.
pub const NO_PARENT: u8 = 255;

/// One active exploration point of the wave.
#[derive(Clone, Copy, PartialEq, Eq, Structural, Debug)]
pub struct WaveFork {
    pub x: u8,
    pub y: u8,
    pub energy: u8,
    /// Index of the fork of the previous generation that this one branched from.
    pub parent_id: u8,
}

/// A fork that stands on the grid and still holds energy.
pub open spec fn fork_ok(f: WaveFork) -> bool {
    &&& f.x < SIDE
    &&& f.y < SIDE
    &&& f.energy >= 1
}

/// Column step of direction `d`: down, right, up, left in that order.
pub open spec fn dx(d: int) -> int {
    if d == 1 {
        1
    } else if d == 3 {
        -1
    } else {
        0
    }
}

/// Row step of direction `d`: down, right, up, left in that order.
pub open spec fn dy(d: int) -> int {
    if d == 0 {
        1
    } else if d == 2 {
        -1
    } else {
        0
    }
}

/// Whether the neighbour of `f` in direction `d` may be entered.
pub open spec fn open_dir(grid: Seq<Cell>, f: WaveFork, d: int) -> bool {
    open_at(grid, f.x + dx(d), f.y + dy(d))
}

/// How many of the first `n` directions from `f` may be entered.
pub open spec fn count_open(grid: Seq<Cell>, f: WaveFork, n: int) -> int
    decreases n,
{
    if n <= 0 {
        0
    } else {
        count_open(grid, f, n - 1) + if open_dir(grid, f, n - 1) {
            1int
        } else {
            0int
        }
    }
}

pub proof fn lemma_count_open_bounds(grid: Seq<Cell>, f: WaveFork, n: int)
    requires
        0 <= n,
    ensures
        0 <= count_open(grid, f, n) <= n,
    decreases n,
{
    if n > 0 {
        lemma_count_open_bounds(grid, f, n - 1);
    }
}

/// The position of the neighbour of `f` in direction `d`, where that neighbour
/// lies on the grid and is no wall.
pub fn open_neighbour(grid: &Vec<Cell>, f: &WaveFork, d: u8) -> (r: Option<(u8, u8)>)
    requires
        grid@.len() == CELLS,
        fork_ok(*f),
        d < 4,
    ensures
        r.is_some() == open_dir(grid@, *f, d as int),
        r.is_some() ==> r.unwrap().0 == f.x + dx(d as int) && r.unwrap().1 == f.y + dy(d as int),
{
    let x: u8 = f.x;
    let y: u8 = f.y;
    let (nx, ny): (u8, u8) = if d == 0 {
        if y + 1 >= SIDE {
            return None;
        }
        (x, y + 1)
    } else if d == 1 {
        if x + 1 >= SIDE {
            return None;
        }
        (x + 1, y)
    } else if d == 2 {
        if y == 0 {
            return None;
        }
        (x, y - 1)
    } else {
        if x == 0 {
            return None;
        }
        (x - 1, y)
    };
    assert(in_bounds(nx as int, ny as int));
    let idx: usize = ny as usize * 8 + nx as usize;
    if grid[idx] == Cell::Wall {
        None
    } else {
        Some((nx, ny))
    }
}

} // verus!
