use vstd::prelude::*;

verus! {

/// The palette of tile types a map is made of.
#[derive(Clone, Copy, Debug, PartialEq, Eq, Hash, Structural)]
pub enum TileType {
    Empty,
    Mountain,
    Land,
    Coast,
    Water,
}

/// One of the four cardinal directions on a grid addressed by (column, row).
#[derive(Clone, Copy, Debug, PartialEq, Eq, Hash, Structural)]
pub enum Direction {
    Up,
    Down,
    Left,
    Right,
}

/// The errors of the solver and its components.
#[derive(Clone, Copy, Debug, PartialEq, Eq, Structural)]
pub enum WfcError {
    /// A tile identifier that the catalog never handed out.
    UnknownTileId,
    /// An attempt to collapse a cell to a tile it no longer allows.
    InvalidForce,
    /// A cell was left with no possible tile.
    Contradiction,
    /// The solver ran out of retries.
    SolveFailed,
}

/// The opposite direction.
pub open spec fn inverse_spec(d: Direction) -> Direction {
    match d {
        Direction::Up => Direction::Down,
        Direction::Down => Direction::Up,
        Direction::Left => Direction::Right,
        Direction::Right => Direction::Left,
    }
}

/// The coordinates one step from column `x`, row `y` in direction `d`.
/// Up decreases the row, Left decreases the column.
pub open spec fn step(x: int, y: int, d: Direction) -> (int, int) {
    match d {
        Direction::Up => (x, y - 1),
        Direction::Down => (x, y + 1),
        Direction::Left => (x - 1, y),
        Direction::Right => (x + 1, y),
    }
}

impl Direction {
    /// The opposite direction: Up and Down, Left and Right swap.
    pub fn inverse(self) -> (r: Direction)
        ensures
            r == inverse_spec(self),
    {
        match self {
            Direction::Up => Direction::Down,
            Direction::Down => Direction::Up,
            Direction::Left => Direction::Right,
            Direction::Right => Direction::Left,
        }
    }

    /// All four directions, in a fixed order.
    pub fn all() -> (r: Vec<Direction>)
        ensures
            r@ == seq![Direction::Up, Direction::Down, Direction::Left, Direction::Right],
    {
        vec![Direction::Up, Direction::Down, Direction::Left, Direction::Right]
    }
}

/// A grid of tile types as rows of columns: `g[y][x]` is column `x` of row `y`.
/// Rows may differ in length.
pub open spec fn grid_view(g: &Vec<Vec<TileType>>) -> Seq<Seq<TileType>> {
    g@.map_values(|r: Vec<TileType>| r@)
}

/// Column `x`, row `y` lies on the grid.
pub open spec fn in_grid(g: Seq<Seq<TileType>>, x: int, y: int) -> bool {
    0 <= y < g.len() && 0 <= x < g[y].len()
}

/// The number of cells of the grid's first `m` rows.
pub open spec fn cells_in_rows(g: Seq<Seq<TileType>>, m: int) -> nat
    decreases m,
{
    if m <= 0 {
        0
    } else {
        cells_in_rows(g, m - 1) + g[m - 1].len()
    }
}

/// The number of cells of the grid.
pub open spec fn total_cells(g: Seq<Seq<TileType>>) -> nat {
    cells_in_rows(g, g.len() as int)
}

/// Stepping in a direction and then in its inverse comes back.
pub proof fn lemma_step_inverse(x: int, y: int, d: Direction)
    ensures
        step(step(x, y, d).0, step(x, y, d).1, inverse_spec(d)) == (x, y),
        inverse_spec(inverse_spec(d)) == d,
{
}

} // verus!
