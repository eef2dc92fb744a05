use vstd::prelude::*;
use crate::tile::{grid_view, in_grid, TileType, WfcError};

verus! {

/// Assigns dense identifiers, from 0 in order of first registration, to tile
/// types, and resolves them back.
pub struct TileCatalog {
    tiles: Vec<TileType>,
}

impl View for TileCatalog {
    type V = Seq<TileType>;

    /// The registered tile types; a tile's identifier is its index.
    closed spec fn view(&self) -> Seq<TileType> {
        self.tiles@
    }
}

impl TileCatalog {
    /// No tile type is registered twice.
    pub open spec fn wf(&self) -> bool {
        self@.no_duplicates()
    }

    pub fn new() -> (c: TileCatalog)
        ensures
            c.wf(),
            c@ == Seq::<TileType>::empty(),
    {
        TileCatalog { tiles: Vec::new() }
    }

    /// The number of registered tile types.
    pub fn count(&self) -> (n: usize)
        ensures
            n == self@.len(),
    {
        self.tiles.len()
    }

    /// The identifier of `tile`, if it is registered.
    pub fn id_of(&self, tile: TileType) -> (r: Option<usize>)
        requires
            self.wf(),
        ensures
            match r {
                Some(id) => id < self@.len() && self@[id as int] == tile,
                None => !self@.contains(tile),
            },
    {
        let mut i: usize = 0;
        while i < self.tiles.len()
            invariant
                i <= self.tiles.len(),
                forall|j: int| 0 <= j < i ==> self.tiles@[j] != tile,
            decreases self.tiles.len() - i,
        {
            if self.tiles[i] == tile {
                return Some(i);
            }
            i = i + 1;
        }
        None
    }

    /// Returns the identifier of `tile`, registering it under the next free
    /// identifier on first sight.
    pub fn register(&mut self, tile: TileType) -> (id: usize)
        requires
            old(self).wf(),
        ensures
            final(self).wf(),
            id < final(self)@.len(),
            final(self)@[id as int] == tile,
            old(self)@.contains(tile) ==> final(self)@ == old(self)@,
            !old(self)@.contains(tile) ==> final(self)@ == old(self)@.push(tile)
                && id == old(self)@.len(),
    {
        match self.id_of(tile) {
            Some(id) => id,
            None => {
                let id = self.tiles.len();
                self.tiles.push(tile);
                proof {
                    assert(self.tiles@.no_duplicates()) by {
                        assert forall|i: int, j: int|
                            0 <= i < self.tiles@.len() && 0 <= j < self.tiles@.len() && i != j
                            implies self.tiles@[i] != self.tiles@[j] by {
                            if i < id && j < id {
                                assert(old(self)@[i] != old(self)@[j]);
                            } else if i < id {
                                assert(old(self)@[i] != tile);
                            } else if j < id {
                                assert(old(self)@[j] != tile);
                            }
                        }
                    }
                }
                id
            },
        }
    }

    /// The tile type registered under `id`.
    pub fn resolve(&self, id: usize) -> (r: Result<TileType, WfcError>)
        ensures
            id < self@.len() ==> r == Ok::<TileType, WfcError>(self@[id as int]),
            id >= self@.len() ==> r == Err::<TileType, WfcError>(WfcError::UnknownTileId),
    {
        if id < self.tiles.len() {
            Ok(self.tiles[id])
        } else {
            Err(WfcError::UnknownTileId)
        }
    }
}

} // verus!

verus! {

/// Every tile type of the grid is registered.
pub open spec fn covers(cat: Seq<TileType>, g: Seq<Seq<TileType>>) -> bool {
    forall|x: int, y: int| #[trigger] in_grid(g, x, y) ==> cat.contains(g[y][x])
}

/// The tile type occurs somewhere in the grid.
pub open spec fn occurs(g: Seq<Seq<TileType>>, tile: TileType) -> bool {
    exists|x: int, y: int| #[trigger] in_grid(g, x, y) && g[y][x] == tile
}

/// Every registered tile type occurs in the grid.
pub open spec fn drawn_from(cat: Seq<TileType>, g: Seq<Seq<TileType>>) -> bool {
    forall|t: int| 0 <= t < cat.len() ==> #[trigger] occurs(g, cat[t])
}

impl TileCatalog {
    /// Registers the tile types of a sample grid, row by row, in order of
    /// first sight.
    pub fn from_sample(sample: &Vec<Vec<TileType>>) -> (c: TileCatalog)
        ensures
            c.wf(),
            covers(c@, grid_view(sample)),
            drawn_from(c@, grid_view(sample)),
    {
        let ghost g = grid_view(sample);
        let mut c = TileCatalog::new();
        let mut y: usize = 0;
        while y < sample.len()
            invariant
                g == grid_view(sample),
                y <= sample.len(),
                c.wf(),
                drawn_from(c@, g),
                forall|cx: int, cy: int| 0 <= cy < y && #[trigger] in_grid(g, cx, cy) ==> c@.contains(g[cy][cx]),
            decreases sample.len() - y,
        {
            let row = &sample[y];
            let mut x: usize = 0;
            while x < row.len()
                invariant
                    g == grid_view(sample),
                    y < sample.len(),
                    row@ == g[y as int],
                    x <= row.len(),
                    c.wf(),
                    drawn_from(c@, g),
                    forall|cx: int, cy: int|
                        (0 <= cy < y || (cy == y && 0 <= cx < x)) && #[trigger] in_grid(g, cx, cy)
                            ==> c@.contains(g[cy][cx]),
                decreases row.len() - x,
            {
                let ghost before = c@;
                let id = c.register(row[x]);
                proof {
                    assert(in_grid(g, x as int, y as int));
                    assert forall|cx: int, cy: int|
                        (0 <= cy < y || (cy == y && 0 <= cx < x + 1)) && #[trigger] in_grid(g, cx, cy)
                            implies c@.contains(g[cy][cx]) by {
                        if cy == y && cx == x {
                            assert(c@[id as int] == g[cy][cx]);
                        } else {
                            let j = choose|j: int| 0 <= j < before.len() && before[j] == g[cy][cx];
                            assert(c@[j] == g[cy][cx]);
                        }
                    }
                    assert forall|t: int| 0 <= t < c@.len() implies #[trigger] occurs(g, c@[t]) by {
                        if t < before.len() {
                            assert(c@[t] == before[t]);
                            assert(occurs(g, before[t]));
                        } else {
                            assert(in_grid(g, x as int, y as int) && g[y as int][x as int] == c@[t]);
                        }
                    }
                }
                x = x + 1;
            }
            y = y + 1;
        }
        c
    }
}

} // verus!

verus! {

/// The whole palette in declaration order: Empty, Mountain, Land, Coast, Water.
pub open spec fn palette() -> Seq<TileType> {
    seq![TileType::Empty, TileType::Mountain, TileType::Land, TileType::Coast, TileType::Water]
}

impl TileCatalog {
    /// The catalog of the whole palette, each tile type under its position
    /// in declaration order.
    pub fn standard() -> (c: TileCatalog)
        ensures
            c.wf(),
            c@ == palette(),
    {
        let mut c = TileCatalog::new();
        c.register(TileType::Empty);
        c.register(TileType::Mountain);
        c.register(TileType::Land);
        c.register(TileType::Coast);
        c.register(TileType::Water);
        assert(c@ =~= palette());
        c
    }
}

} // verus!
