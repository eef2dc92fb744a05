use vstd::prelude::*;
use crate::adjacency::{occ_row, occ_rows, occurrences};
use crate::tile::{grid_view, step, Direction, TileType};
use vstd::string::StringExecFns;

verus! {

proof fn lemma_occ_row_update(r: Seq<TileType>, x: int, v: TileType, t: TileType, k: int)
    requires
        0 <= x < r.len(),
        0 <= k <= r.len(),
    ensures
        x < k ==> occ_row(r.update(x, v), t, k) + (if r[x] == t { 1int } else { 0int })
            == occ_row(r, t, k) + (if v == t { 1int } else { 0int }),
        x >= k ==> occ_row(r.update(x, v), t, k) == occ_row(r, t, k),
    decreases k,
{
    if k > 0 {
        lemma_occ_row_update(r, x, v, t, k - 1);
    }
}

proof fn lemma_occ_rows_update(g: Seq<Seq<TileType>>, y: int, r: Seq<TileType>, t: TileType, m: int)
    requires
        0 <= y < g.len(),
        0 <= m <= g.len(),
    ensures
        y < m ==> occ_rows(g.update(y, r), t, m) + occ_row(g[y], t, g[y].len() as int)
            == occ_rows(g, t, m) + occ_row(r, t, r.len() as int),
        y >= m ==> occ_rows(g.update(y, r), t, m) == occ_rows(g, t, m),
    decreases m,
{
    if m > 0 {
        lemma_occ_rows_update(g, y, r, t, m - 1);
    }
}

/// The text of a failed deletion, naming the configuration.
pub open spec fn not_found_text(name: Seq<char>) -> Seq<char> {
    " Item '"@ + name + "' not found"@
}

/// The message of a failed deletion.
fn not_found_message(name: &str) -> (r: String)
    ensures
        r@ == not_found_text(name@),
{
    let mut r = String::from_str(" Item '");
    r.append(name);
    r.append("' not found");
    r
}

/// An editable map of tile types, `grid_width` columns by `grid_height`
/// rows, addressed by column `x` and row `y`, with named saved copies.
pub struct TileSystem {
    tiles: Vec<Vec<TileType>>,
    grid_width: usize,
    grid_height: usize,
    saved_configs: Vec<(String, Vec<Vec<TileType>>)>,
}

impl TileSystem {
    pub closed spec fn width_spec(&self) -> nat {
        self.grid_width as nat
    }

    pub closed spec fn height_spec(&self) -> nat {
        self.grid_height as nat
    }

    /// The map as rows of columns.
    pub closed spec fn grid(&self) -> Seq<Seq<TileType>> {
        grid_view(&self.tiles)
    }

    /// The names of the saved configurations, oldest first.
    pub closed spec fn names(&self) -> Seq<Seq<char>> {
        self.saved_configs@.map_values(|c: (String, Vec<Vec<TileType>>)| c.0@)
    }

    /// The saved configuration at position `i`, as rows of columns.
    pub closed spec fn config(&self, i: int) -> Seq<Seq<TileType>> {
        grid_view(&self.saved_configs@[i].1)
    }

    pub open spec fn in_map(&self, x: int, y: int) -> bool {
        0 <= x < self.width_spec() && 0 <= y < self.height_spec()
    }

    pub open spec fn tile(&self, x: int, y: int) -> TileType {
        self.grid()[y][x]
    }

    /// The saved configurations are those of `o`, under the same names in
    /// the same order.
    pub open spec fn same_configs(&self, o: &TileSystem) -> bool {
        &&& self.names() == o.names()
        &&& forall|i: int| 0 <= i < self.names().len() ==> #[trigger] self.config(i) == o.config(i)
    }

    /// The map is a full rectangle and no name is saved twice.
    pub open spec fn wf(&self) -> bool {
        &&& self.grid().len() == self.height_spec()
        &&& forall|y: int| 0 <= y < self.height_spec() ==> (#[trigger] self.grid()[y]).len() == self.width_spec()
        &&& self.names().no_duplicates()
    }

    /// A map of empty tiles with no saved configurations.
    pub fn new(grid_width: usize, grid_height: usize) -> (s: TileSystem)
        ensures
            s.wf(),
            s.width_spec() == grid_width,
            s.height_spec() == grid_height,
            forall|x: int, y: int| s.in_map(x, y) ==> #[trigger] s.tile(x, y) == TileType::Empty,
            s.names().len() == 0,
    {
        let mut tiles: Vec<Vec<TileType>> = Vec::new();
        let mut y: usize = 0;
        while y < grid_height
            invariant
                y <= grid_height,
                tiles@.len() == y,
                forall|j: int| 0 <= j < y ==> (#[trigger] tiles@[j])@ == Seq::new(grid_width as nat, |i: int| TileType::Empty),
            decreases grid_height - y,
        {
            let mut row: Vec<TileType> = Vec::new();
            let mut x: usize = 0;
            while x < grid_width
                invariant
                    x <= grid_width,
                    row@ == Seq::new(x as nat, |i: int| TileType::Empty),
                decreases grid_width - x,
            {
                row.push(TileType::Empty);
                x = x + 1;
                assert(row@ =~= Seq::new(x as nat, |i: int| TileType::Empty));
            }
            tiles.push(row);
            y = y + 1;
        }
        let s = TileSystem { tiles, grid_width, grid_height, saved_configs: Vec::new() };
        assert(s.names() =~= Seq::<Seq<char>>::empty());
        s
    }

    pub fn grid_width(&self) -> (r: usize)
        ensures
            r == self.width_spec(),
    {
        self.grid_width
    }

    pub fn grid_height(&self) -> (r: usize)
        ensures
            r == self.height_spec(),
    {
        self.grid_height
    }

    /// The tile type at column `x`, row `y`, if that is on the map.
    pub fn get_tile(&self, x: usize, y: usize) -> (r: Option<TileType>)
        requires
            self.wf(),
        ensures
            self.in_map(x as int, y as int) ==> r == Some(self.tile(x as int, y as int)),
            !self.in_map(x as int, y as int) ==> r is None,
    {
        if x < self.grid_width && y < self.grid_height {
            Some(self.tiles[y][x])
        } else {
            None
        }
    }

    /// Puts `tile` at column `x`, row `y`; false, changing nothing, where
    /// that is off the map.
    pub fn set_tile(&mut self, x: usize, y: usize, tile: TileType) -> (r: bool)
        requires
            old(self).wf(),
        ensures
            final(self).same_configs(old(self)),
            final(self).wf(),
            r == old(self).in_map(x as int, y as int),
            r ==> final(self).grid() == old(self).grid().update(y as int, old(self).grid()[y as int].update(x as int, tile)),
            !r ==> final(self).grid() == old(self).grid(),
            final(self).names() == old(self).names(),
            final(self).width_spec() == old(self).width_spec(),
            final(self).height_spec() == old(self).height_spec(),
            forall|cx: int, cy: int| final(self).in_map(cx, cy) ==> #[trigger] final(self).tile(cx, cy)
                == if r && cx == x && cy == y { tile } else { old(self).tile(cx, cy) },
    {
        if x < self.grid_width && y < self.grid_height {
            let ghost before = self.grid();
            assert(self.grid()[y as int].len() == self.width_spec());
            assert(self.tiles@[y as int]@.len() == self.width_spec());
            self.tiles[y][x] = tile;
            assert(self.grid() =~= before.update(y as int, before[y as int].update(x as int, tile)));
            true
        } else {
            false
        }
    }

    /// Sets every tile to `Empty`.
    pub fn clear_map(&mut self)
        requires
            old(self).wf(),
        ensures
            final(self).same_configs(old(self)),
            final(self).wf(),
            final(self).names() == old(self).names(),
            final(self).width_spec() == old(self).width_spec(),
            final(self).height_spec() == old(self).height_spec(),
            forall|x: int, y: int| final(self).in_map(x, y) ==> #[trigger] final(self).tile(x, y) == TileType::Empty,
    {
        let ghost names = self.names();
        let mut y: usize = 0;
        while y < self.grid_height
            invariant
                self.same_configs(old(self)),
                self.wf(),
                self.names() == names,
                self.width_spec() == old(self).width_spec(),
                self.height_spec() == old(self).height_spec(),
                y <= self.height_spec(),
                forall|cx: int, cy: int| 0 <= cy < y && 0 <= cx < self.width_spec() ==> #[trigger] self.tile(cx, cy) == TileType::Empty,
            decreases self.grid_height - y,
        {
            let mut x: usize = 0;
            while x < self.grid_width
                invariant
                    self.same_configs(old(self)),
                    self.wf(),
                    self.names() == names,
                    self.width_spec() == old(self).width_spec(),
                    self.height_spec() == old(self).height_spec(),
                    y < self.height_spec(),
                    x <= self.width_spec(),
                    forall|cx: int, cy: int| (0 <= cy < y && 0 <= cx < self.width_spec()) || (cy == y && 0 <= cx < x)
                        ==> #[trigger] self.tile(cx, cy) == TileType::Empty,
                decreases self.grid_width - x,
            {
                self.set_tile(x, y, TileType::Empty);
                x = x + 1;
            }
            y = y + 1;
        }
    }
}

/// Column `cx`, row `cy` of `s` is reached from column `x`, row `y` in at
/// most `k` steps up, down, left or right, through cells holding `t` only.
pub open spec fn reaches(s: TileSystem, t: TileType, x: int, y: int, cx: int, cy: int, k: nat) -> bool
    decreases k,
{
    &&& s.in_map(cx, cy)
    &&& s.tile(cx, cy) == t
    &&& (cx == x && cy == y) || (k > 0 && (
        reaches(s, t, x, y, step(cx, cy, Direction::Up).0, step(cx, cy, Direction::Up).1, (k - 1) as nat)
        || reaches(s, t, x, y, step(cx, cy, Direction::Down).0, step(cx, cy, Direction::Down).1, (k - 1) as nat)
        || reaches(s, t, x, y, step(cx, cy, Direction::Left).0, step(cx, cy, Direction::Left).1, (k - 1) as nat)
        || reaches(s, t, x, y, step(cx, cy, Direction::Right).0, step(cx, cy, Direction::Right).1, (k - 1) as nat)))
}

proof fn lemma_reach_step(s: TileSystem, t: TileType, x: int, y: int, cx: int, cy: int, d: Direction, k: nat)
    requires
        reaches(s, t, x, y, step(cx, cy, d).0, step(cx, cy, d).1, k),
        s.in_map(cx, cy),
        s.tile(cx, cy) == t,
    ensures
        reaches(s, t, x, y, cx, cy, k + 1),
{
    match d {
        Direction::Up => {},
        Direction::Down => {},
        Direction::Left => {},
        Direction::Right => {},
    }
}

/// The cells of a `w` by `h` map one step from column `x`, row `y`, pushed
/// onto `stack`.
fn push_neighbours(stack: &mut Vec<(usize, usize)>, x: usize, y: usize, w: usize, h: usize)
    requires
        x < w,
        y < h,
    ensures
        forall|q: (usize, usize)| old(stack)@.contains(q) ==> #[trigger] final(stack)@.contains(q),
        forall|q: (usize, usize)| #[trigger] final(stack)@.contains(q) ==> old(stack)@.contains(q) || (q.0 < w && q.1 < h
            && exists|d: Direction| #[trigger] step(q.0 as int, q.1 as int, d) == (x as int, y as int)),
        forall|d: Direction|
            0 <= #[trigger] step(x as int, y as int, d).0 < w && 0 <= step(x as int, y as int, d).1 < h
                ==> final(stack)@.contains((step(x as int, y as int, d).0 as usize, step(x as int, y as int, d).1 as usize)),
{
    let ghost s0 = stack@;
    if x > 0 {
        push_one(stack, (x - 1, y));
    }
    if x + 1 < w {
        push_one(stack, (x + 1, y));
    }
    if y > 0 {
        push_one(stack, (x, y - 1));
    }
    if y + 1 < h {
        push_one(stack, (x, y + 1));
    }
    proof {
        assert forall|q: (usize, usize)| #[trigger] stack@.contains(q) implies s0.contains(q) || (q.0 < w && q.1 < h
            && exists|d: Direction| #[trigger] step(q.0 as int, q.1 as int, d) == (x as int, y as int)) by {
            if q.0 + 1 == x && q.1 == y {
                assert(step(q.0 as int, q.1 as int, Direction::Right) == (x as int, y as int));
            } else if q.0 == x + 1 && q.1 == y {
                assert(step(q.0 as int, q.1 as int, Direction::Left) == (x as int, y as int));
            } else if q.0 == x && q.1 + 1 == y {
                assert(step(q.0 as int, q.1 as int, Direction::Down) == (x as int, y as int));
            } else if q.0 == x && q.1 == y + 1 {
                assert(step(q.0 as int, q.1 as int, Direction::Up) == (x as int, y as int));
            }
        }
        assert forall|d: Direction|
            0 <= #[trigger] step(x as int, y as int, d).0 < w && 0 <= step(x as int, y as int, d).1 < h
                implies stack@.contains((step(x as int, y as int, d).0 as usize, step(x as int, y as int, d).1 as usize)) by {
            match d {
                Direction::Up => {},
                Direction::Down => {},
                Direction::Left => {},
                Direction::Right => {},
            }
        }
    }
}

/// Pushes `q`, keeping everything that was there.
fn push_one(stack: &mut Vec<(usize, usize)>, q: (usize, usize))
    ensures
        forall|p: (usize, usize)| #[trigger] final(stack)@.contains(p) <==> (old(stack)@.contains(p) || p == q),
{
    let ghost s0 = stack@;
    stack.push(q);
    proof {
        assert forall|p: (usize, usize)| #[trigger] stack@.contains(p) <==> (s0.contains(p) || p == q) by {
            if stack@.contains(p) {
                let i = choose|i: int| 0 <= i < stack@.len() && stack@[i] == p;
                if i < s0.len() {
                    assert(s0[i] == p);
                }
            }
            if s0.contains(p) {
                let i = choose|i: int| 0 <= i < s0.len() && s0[i] == p;
                assert(stack@[i] == p);
            }
            if p == q {
                assert(stack@[s0.len() as int] == q);
            }
        }
    }
}

impl TileSystem {
    /// Flood fill: from column `start_x`, row `start_y`, turns every tile of
    /// the start tile's type that can be reached through cells of that type,
    /// stepping up, down, left and right, into `new_tile`. Changes nothing
    /// where the start is off the map or already holds `new_tile`.
    pub fn fill_to_border(&mut self, start_x: usize, start_y: usize, new_tile: TileType)
        requires
            old(self).wf(),
        ensures
            final(self).same_configs(old(self)),
            final(self).wf(),
            final(self).names() == old(self).names(),
            final(self).width_spec() == old(self).width_spec(),
            final(self).height_spec() == old(self).height_spec(),
            !old(self).in_map(start_x as int, start_y as int) || old(self).tile(start_x as int, start_y as int) == new_tile
                ==> final(self).grid() == old(self).grid(),
            old(self).in_map(start_x as int, start_y as int) && old(self).tile(start_x as int, start_y as int) != new_tile
                ==> filled(*old(self), *final(self), start_x as int, start_y as int, new_tile),
    {
        let old_type = match self.get_tile(start_x, start_y) {
            Some(t) => t,
            None => return,
        };
        if old_type == new_tile {
            return;
        }
        let ghost start = *self;
        let w = self.grid_width;
        let h = self.grid_height;
        let mut stack: Vec<(usize, usize)> = Vec::new();
        stack.push((start_x, start_y));
        assert(stack@[0] == (start_x, start_y));
        while stack.len() > 0
            invariant
                self.same_configs(old(self)),
                self.wf(),
                w == self.width_spec(),
                h == self.height_spec(),
                start.wf(),
                start.in_map(start_x as int, start_y as int),
                old_type == start.tile(start_x as int, start_y as int),
                old_type != new_tile,
                self.names() == start.names(),
                self.width_spec() == start.width_spec(),
                self.height_spec() == start.height_spec(),
                forall|q: (usize, usize)| #[trigger] stack@.contains(q) ==> q.0 < w && q.1 < h,
                forall|x: int, y: int| self.in_map(x, y) ==> #[trigger] self.tile(x, y) == start.tile(x, y)
                    || (start.tile(x, y) == old_type && self.tile(x, y) == new_tile),
                self.tile(start_x as int, start_y as int) == new_tile || stack@.contains((start_x, start_y)),
                forall|x: int, y: int, d: Direction| #![trigger step(x, y, d)]
                    self.in_map(x, y) && self.in_map(step(x, y, d).0, step(x, y, d).1)
                        && self.tile(x, y) != start.tile(x, y)
                        ==> self.tile(step(x, y, d).0, step(x, y, d).1) != old_type
                        || stack@.contains((step(x, y, d).0 as usize, step(x, y, d).1 as usize)),
                forall|x: int, y: int| self.in_map(x, y) && #[trigger] self.tile(x, y) != start.tile(x, y)
                    ==> exists|k: nat| #[trigger] reaches(start, old_type, start_x as int, start_y as int, x, y, k),
                forall|q: (usize, usize)| #[trigger] stack@.contains(q) ==> q == (start_x, start_y)
                    || exists|d: Direction| #[trigger] changed_at(*self, start, step(q.0 as int, q.1 as int, d)),
            decreases occurrences(self.grid(), old_type), stack.len(),
        {
            let ghost s0 = stack@;
            let ghost before = *self;
            let (x, y) = stack.pop().unwrap();
            assert(s0[s0.len() - 1] == (x, y));
            assert(s0.contains((x, y)));
            proof {
                assert forall|q: (usize, usize)| s0.contains(q) && q != (x, y) implies #[trigger] stack@.contains(q) by {
                    let i = choose|i: int| 0 <= i < s0.len() && s0[i] == q;
                    assert(stack@[i] == q);
                }
                assert forall|q: (usize, usize)| #[trigger] stack@.contains(q) implies s0.contains(q) by {
                    let i = choose|i: int| 0 <= i < stack@.len() && stack@[i] == q;
                    assert(s0[i] == q);
                }
            }
            assert(self.grid()[y as int].len() == w);
            if self.tiles[y][x] == old_type {
                self.set_tile(x, y, new_tile);
                proof {
                    let g0 = before.grid();
                    lemma_occ_rows_update(g0, y as int, g0[y as int].update(x as int, new_tile), old_type, g0.len() as int);
                    lemma_occ_row_update(g0[y as int], x as int, new_tile, old_type, g0[y as int].len() as int);
                }
                let ghost s1 = stack@;
                push_neighbours(&mut stack, x, y, w, h);
                proof {
                    assert forall|cx: int, cy: int, d: Direction| #![trigger step(cx, cy, d)]
                        self.in_map(cx, cy) && self.in_map(step(cx, cy, d).0, step(cx, cy, d).1)
                            && self.tile(cx, cy) != start.tile(cx, cy)
                            implies self.tile(step(cx, cy, d).0, step(cx, cy, d).1) != old_type
                            || stack@.contains((step(cx, cy, d).0 as usize, step(cx, cy, d).1 as usize)) by {
                        let (nx, ny) = step(cx, cy, d);
                        if (cx, cy) == (x as int, y as int) {
                            assert(0 <= step(x as int, y as int, d).0 < w && 0 <= step(x as int, y as int, d).1 < h);
                        } else {
                            assert(before.tile(cx, cy) != start.tile(cx, cy));
                            if (nx, ny) != (x as int, y as int) && before.tile(nx, ny) == old_type {
                                assert(s0.contains((nx as usize, ny as usize)));
                                assert(s1.contains((nx as usize, ny as usize)));
                            }
                        }
                    }
                    if (x, y) != (start_x, start_y) && before.tile(start_x as int, start_y as int) != new_tile {
                        assert(s1.contains((start_x, start_y)));
                    }
                    assert(start.tile(x as int, y as int) == old_type);
                    if (x, y) == (start_x, start_y) {
                        assert(reaches(start, old_type, start_x as int, start_y as int, x as int, y as int, 0));
                    } else {
                        let d = choose|d: Direction| #[trigger] changed_at(before, start, step(x as int, y as int, d));
                        let (cx, cy) = step(x as int, y as int, d);
                        assert(before.tile(cx, cy) != start.tile(cx, cy));
                        let k = choose|k: nat| #[trigger] reaches(start, old_type, start_x as int, start_y as int, cx, cy, k);
                        lemma_reach_step(start, old_type, start_x as int, start_y as int, x as int, y as int, d, k);
                    }
                    assert forall|cx: int, cy: int| self.in_map(cx, cy) && #[trigger] self.tile(cx, cy) != start.tile(cx, cy)
                        implies exists|k: nat| #[trigger] reaches(start, old_type, start_x as int, start_y as int, cx, cy, k) by {
                        if (cx, cy) != (x as int, y as int) {
                            assert(before.tile(cx, cy) != start.tile(cx, cy));
                        }
                    }
                    assert forall|q: (usize, usize)| #[trigger] stack@.contains(q) implies q == (start_x, start_y)
                        || exists|d: Direction| #[trigger] changed_at(*self, start, step(q.0 as int, q.1 as int, d)) by {
                        if s1.contains(q) {
                            assert(s0.contains(q));
                            if q != (start_x, start_y) {
                                let d = choose|d: Direction| #[trigger] changed_at(before, start, step(q.0 as int, q.1 as int, d));
                                let (cx, cy) = step(q.0 as int, q.1 as int, d);
                                if (cx, cy) != (x as int, y as int) {
                                    assert(self.tile(cx, cy) == before.tile(cx, cy));
                                }
                                assert(changed_at(*self, start, step(q.0 as int, q.1 as int, d)));
                            }
                        } else {
                            let d = choose|d: Direction| #[trigger] step(q.0 as int, q.1 as int, d) == (x as int, y as int);
                            assert(changed_at(*self, start, step(q.0 as int, q.1 as int, d)));
                        }
                    }
                }
            } else {
                proof {
                    assert forall|cx: int, cy: int, d: Direction| #![trigger step(cx, cy, d)]
                        self.in_map(cx, cy) && self.in_map(step(cx, cy, d).0, step(cx, cy, d).1)
                            && self.tile(cx, cy) != start.tile(cx, cy)
                            implies self.tile(step(cx, cy, d).0, step(cx, cy, d).1) != old_type
                            || stack@.contains((step(cx, cy, d).0 as usize, step(cx, cy, d).1 as usize)) by {
                        let (nx, ny) = step(cx, cy, d);
                        if (nx, ny) != (x as int, y as int) && self.tile(nx, ny) == old_type {
                            assert(s0.contains((nx as usize, ny as usize)));
                        }
                    }
                    assert forall|q: (usize, usize)| #[trigger] stack@.contains(q) implies q == (start_x, start_y)
                        || exists|d: Direction| #[trigger] changed_at(*self, start, step(q.0 as int, q.1 as int, d)) by {
                        assert(s0.contains(q));
                    }
                }
            }
        }
    }
}

/// The cell at `c` is on the map and holds a tile other than in `start`.
pub open spec fn changed_at(s: TileSystem, start: TileSystem, c: (int, int)) -> bool {
    s.in_map(c.0, c.1) && s.tile(c.0, c.1) != start.tile(c.0, c.1)
}

/// `after` is `before` flood-filled with `new_tile` from column `x`, row `y`:
/// the start cell holds `new_tile`, only cells of the start's type
/// changed, each to `new_tile` and each reached from the start through
/// cells of that type, and no cell of that type is left next to a changed
/// cell.
pub open spec fn filled(before: TileSystem, after: TileSystem, x: int, y: int, new_tile: TileType) -> bool {
    let old_type = before.tile(x, y);
    &&& after.tile(x, y) == new_tile
    &&& forall|cx: int, cy: int| after.in_map(cx, cy) && #[trigger] after.tile(cx, cy) != before.tile(cx, cy)
        ==> exists|k: nat| #[trigger] reaches(before, old_type, x, y, cx, cy, k)
    &&& forall|cx: int, cy: int| after.in_map(cx, cy) ==> #[trigger] after.tile(cx, cy) == before.tile(cx, cy)
        || (before.tile(cx, cy) == old_type && after.tile(cx, cy) == new_tile)
    &&& forall|cx: int, cy: int, d: Direction| #![trigger step(cx, cy, d)]
        after.in_map(cx, cy) && after.in_map(step(cx, cy, d).0, step(cx, cy, d).1)
            && after.tile(cx, cy) != before.tile(cx, cy)
            ==> after.tile(step(cx, cy, d).0, step(cx, cy, d).1) != old_type
}

/// A copy of a grid of tile types.
fn copy_grid(g: &Vec<Vec<TileType>>) -> (r: Vec<Vec<TileType>>)
    ensures
        grid_view(&r) == grid_view(g),
{
    let mut r: Vec<Vec<TileType>> = Vec::new();
    let mut y: usize = 0;
    while y < g.len()
        invariant
            y <= g@.len(),
            r@.len() == y,
            forall|j: int| 0 <= j < y ==> (#[trigger] r@[j])@ == g@[j]@,
        decreases g.len() - y,
    {
        let mut row: Vec<TileType> = Vec::new();
        let mut x: usize = 0;
        while x < g[y].len()
            invariant
                y < g@.len(),
                x <= g@[y as int]@.len(),
                row@ == g@[y as int]@.subrange(0, x as int),
            decreases g@[y as int]@.len() - x,
        {
            row.push(g[y][x]);
            x = x + 1;
            assert(row@ =~= g@[y as int]@.subrange(0, x as int));
        }
        assert(row@ =~= g@[y as int]@);
        r.push(row);
        y = y + 1;
    }
    assert(grid_view(&r) =~= grid_view(g));
    r
}

impl TileSystem {
    /// Where the configuration called `name` is saved, if it is.
    fn find_config(&self, name: &String) -> (r: Option<usize>)
        requires
            self.wf(),
        ensures
            r matches Some(i) ==> i < self.names().len() && self.names()[i as int] == name@,
            r is None ==> !self.names().contains(name@),
    {
        let mut i: usize = 0;
        while i < self.saved_configs.len()
            invariant
                i <= self.saved_configs@.len(),
                self.names().len() == self.saved_configs@.len(),
                forall|j: int| 0 <= j < i ==> self.names()[j] != name@,
            decreases self.saved_configs.len() - i,
        {
            if self.saved_configs[i].0 == *name {
                return Some(i);
            }
            i = i + 1;
        }
        None
    }

    /// A copy of the map, as rows of columns.
    pub fn tiles(&self) -> (r: Vec<Vec<TileType>>)
        ensures
            grid_view(&r) == self.grid(),
    {
        copy_grid(&self.tiles)
    }

    /// A copy of the configuration called `name`, if there is one.
    pub fn config_grid(&self, name: &String) -> (r: Option<Vec<Vec<TileType>>>)
        requires
            self.wf(),
        ensures
            (r is Some) == self.names().contains(name@),
            r matches Some(g) ==> exists|i: int| 0 <= i < self.names().len() && self.names()[i] == name@
                && grid_view(&g) == self.config(i),
    {
        match self.find_config(name) {
            Some(i) => {
                let g = copy_grid(&self.saved_configs[i].1);
                assert(grid_view(&g) == self.config(i as int));
                Some(g)
            },
            None => None,
        }
    }

    /// The names of the saved configurations, oldest first.
    pub fn config_names(&self) -> (r: Vec<String>)
        ensures
            r@.len() == self.names().len(),
            forall|i: int| 0 <= i < r@.len() ==> (#[trigger] r@[i])@ == self.names()[i],
    {
        let mut r: Vec<String> = Vec::new();
        let mut i: usize = 0;
        while i < self.saved_configs.len()
            invariant
                i <= self.saved_configs@.len(),
                self.names().len() == self.saved_configs@.len(),
                r@.len() == i,
                forall|j: int| 0 <= j < i ==> (#[trigger] r@[j])@ == self.names()[j],
            decreases self.saved_configs.len() - i,
        {
            r.push(self.saved_configs[i].0.clone());
            i = i + 1;
        }
        r
    }

    /// Saves a copy of the map under `name`, replacing a configuration of
    /// that name in place, or adding it last.
    pub fn save_config(&mut self, name: String)
        requires
            old(self).wf(),
        ensures
            final(self).wf(),
            final(self).grid() == old(self).grid(),
            final(self).width_spec() == old(self).width_spec(),
            final(self).height_spec() == old(self).height_spec(),
            old(self).names().contains(name@) ==> final(self).names() == old(self).names(),
            !old(self).names().contains(name@) ==> final(self).names() == old(self).names().push(name@),
            forall|i: int| 0 <= i < final(self).names().len() ==> #[trigger] final(self).config(i)
                == if final(self).names()[i] == name@ { old(self).grid() } else { old(self).config(i) },
    {
        let copy = copy_grid(&self.tiles);
        self.insert_config(name, copy);
    }

    /// Saves `grid` as it is under `name`, replacing a configuration of that
    /// name in place, or adding it last.
    pub fn insert_config(&mut self, name: String, grid: Vec<Vec<TileType>>)
        requires
            old(self).wf(),
        ensures
            final(self).wf(),
            final(self).grid() == old(self).grid(),
            final(self).width_spec() == old(self).width_spec(),
            final(self).height_spec() == old(self).height_spec(),
            old(self).names().contains(name@) ==> final(self).names() == old(self).names(),
            !old(self).names().contains(name@) ==> final(self).names() == old(self).names().push(name@),
            forall|i: int| 0 <= i < final(self).names().len() ==> #[trigger] final(self).config(i)
                == if final(self).names()[i] == name@ { grid_view(&grid) } else { old(self).config(i) },
    {
        let ghost g = grid_view(&grid);
        let copy = grid;
        let ghost before = *self;
        match self.find_config(&name) {
            Some(i) => {
                self.saved_configs.set(i, (name, copy));
                proof {
                    assert(self.names() =~= before.names());
                    assert forall|j: int| 0 <= j < self.names().len() implies #[trigger] self.config(j)
                        == if self.names()[j] == name@ { g } else { before.config(j) } by {
                        if j != i {
                            assert(self.names()[j] != name@) by {
                                assert(before.names()[j] != before.names()[i as int]);
                            }
                        }
                    }
                }
            },
            None => {
                self.saved_configs.push((name, copy));
                proof {
                    assert(self.names() =~= before.names().push(name@));
                    assert forall|j: int| 0 <= j < self.names().len() implies #[trigger] self.config(j)
                        == if self.names()[j] == name@ { g } else { before.config(j) } by {
                        if j < before.names().len() {
                            assert(before.names()[j] != name@);
                        }
                    }
                    assert(self.names().no_duplicates()) by {
                        assert forall|a: int, b: int| 0 <= a < self.names().len() && 0 <= b < self.names().len() && a != b
                            implies self.names()[a] != self.names()[b] by {
                            if a < before.names().len() && b < before.names().len() {
                            } else if a < before.names().len() {
                                assert(before.names().contains(before.names()[a]));
                            } else {
                                assert(before.names().contains(before.names()[b]));
                            }
                        }
                    }
                }
            },
        }
    }

    /// Copies the configuration called `name` onto the map, as far as both
    /// reach; false, changing nothing, where there is none of that name.
    pub fn load_config(&mut self, name: &str) -> (r: bool)
        requires
            old(self).wf(),
        ensures
            final(self).same_configs(old(self)),
            final(self).wf(),
            final(self).names() == old(self).names(),
            final(self).width_spec() == old(self).width_spec(),
            final(self).height_spec() == old(self).height_spec(),
            r == old(self).names().contains(name@),
            !r ==> final(self).grid() == old(self).grid(),
            r ==> exists|i: int| 0 <= i < old(self).names().len() && old(self).names()[i] == name@
                && loaded(*old(self), *final(self), old(self).config(i)),
    {
        let key = name.to_owned();
        let ghost before = *self;
        let i = match self.find_config(&key) {
            Some(i) => i,
            None => return false,
        };
        let config = copy_grid(&self.saved_configs[i].1);
        let ghost cfg = grid_view(&config);
        assert(cfg == before.config(i as int));
        let mut y: usize = 0;
        while y < config.len()
            invariant
                self.same_configs(old(self)),
                self.wf(),
                self.names() == before.names(),
                self.width_spec() == before.width_spec(),
                self.height_spec() == before.height_spec(),
                cfg == grid_view(&config),
                y <= cfg.len(),
                forall|cx: int, cy: int| self.in_map(cx, cy) ==> #[trigger] self.tile(cx, cy)
                    == if cy < y && cx < cfg[cy].len() { cfg[cy][cx] } else { before.tile(cx, cy) },
            decreases config.len() - y,
        {
            let mut x: usize = 0;
            while x < config[y].len()
                invariant
                    self.same_configs(old(self)),
                    self.wf(),
                    self.names() == before.names(),
                    self.width_spec() == before.width_spec(),
                    self.height_spec() == before.height_spec(),
                    cfg == grid_view(&config),
                    y < cfg.len(),
                    x <= cfg[y as int].len(),
                    forall|cx: int, cy: int| self.in_map(cx, cy) ==> #[trigger] self.tile(cx, cy)
                        == if cy < y && cx < cfg[cy].len() { cfg[cy][cx] } else if cy == y && cx < x {
                            cfg[cy][cx]
                        } else {
                            before.tile(cx, cy)
                        },
                decreases cfg[y as int].len() - x,
            {
                self.set_tile(x, y, config[y][x]);
                x = x + 1;
            }
            y = y + 1;
        }
        true
    }

    /// Removes the configuration called `name` and returns it; an error
    /// naming it, changing nothing, where there is none of that name.
    pub fn delete_config(&mut self, name: &str) -> (r: Result<Vec<Vec<TileType>>, String>)
        requires
            old(self).wf(),
        ensures
            final(self).wf(),
            final(self).grid() == old(self).grid(),
            final(self).width_spec() == old(self).width_spec(),
            final(self).height_spec() == old(self).height_spec(),
            (r is Ok) == old(self).names().contains(name@),
            r matches Err(m) ==> m@ == not_found_text(name@) && final(self).same_configs(old(self)),
            r matches Ok(v) ==> exists|i: int| 0 <= i < old(self).names().len() && old(self).names()[i] == name@
                && grid_view(&v) == old(self).config(i) && final(self).names() == old(self).names().remove(i)
                && forall|j: int| 0 <= j < final(self).names().len() ==> #[trigger] final(self).config(j)
                    == old(self).config(if j < i { j } else { j + 1 }),
    {
        let key = name.to_owned();
        let ghost before = *self;
        match self.find_config(&key) {
            Some(i) => {
                let entry = self.saved_configs.remove(i);
                proof {
                    assert(self.names() =~= before.names().remove(i as int));
                    assert(self.names().no_duplicates()) by {
                        assert forall|a: int, b: int| 0 <= a < self.names().len() && 0 <= b < self.names().len() && a != b
                            implies self.names()[a] != self.names()[b] by {
                            let a2 = if a < i { a } else { a + 1 };
                            let b2 = if b < i { b } else { b + 1 };
                            assert(self.names()[a] == before.names()[a2]);
                            assert(self.names()[b] == before.names()[b2]);
                        }
                    }
                    assert(grid_view(&entry.1) == before.config(i as int));
                }
                Ok(entry.1)
            },
            None => Err(not_found_message(name)),
        }
    }
}

/// `after` is `before` with the saved configuration `cfg` copied onto it
/// wherever both have a cell.
pub open spec fn loaded(before: TileSystem, after: TileSystem, cfg: Seq<Seq<TileType>>) -> bool {
    forall|x: int, y: int| after.in_map(x, y) ==> #[trigger] after.tile(x, y)
        == if y < cfg.len() && x < cfg[y].len() { cfg[y][x] } else { before.tile(x, y) }
}

} // verus!
