use vstd::prelude::*;
use crate::catalog::{covers, occurs, palette, TileCatalog};
use crate::tile::{
    grid_view, in_grid, inverse_spec, lemma_step_inverse, step, total_cells, cells_in_rows,
    Direction, TileType,
};

verus! {

/// Tile `b` was seen as the neighbour in direction `d` of tile `a` somewhere
/// in the sample grid `g`; identifiers are indices into the catalog `cat`.
pub open spec fn observed(g: Seq<Seq<TileType>>, cat: Seq<TileType>, a: int, d: Direction, b: int) -> bool {
    &&& 0 <= a < cat.len()
    &&& 0 <= b < cat.len()
    &&& exists|x: int, y: int|
        #[trigger] in_grid(g, x, y) && in_grid(g, step(x, y, d).0, step(x, y, d).1)
            && g[y][x] == cat[a] && g[step(x, y, d).1][step(x, y, d).0] == cat[b]
}

/// How often `tile` occurs among the first `n` entries of a row.
pub open spec fn occ_row(r: Seq<TileType>, tile: TileType, n: int) -> nat
    decreases n,
{
    if n <= 0 {
        0
    } else {
        occ_row(r, tile, n - 1) + if r[n - 1] == tile { 1nat } else { 0nat }
    }
}

/// How often `tile` occurs in the first `m` rows of a grid.
pub open spec fn occ_rows(g: Seq<Seq<TileType>>, tile: TileType, m: int) -> nat
    decreases m,
{
    if m <= 0 {
        0
    } else {
        occ_rows(g, tile, m - 1) + occ_row(g[m - 1], tile, g[m - 1].len() as int)
    }
}

/// How often `tile` occurs in the grid.
pub open spec fn occurrences(g: Seq<Seq<TileType>>, tile: TileType) -> nat {
    occ_rows(g, tile, g.len() as int)
}

/// What a sample grid teaches about adjacency is the same read in either
/// direction: `b` next to `a` towards `d` is `a` next to `b` towards the
/// inverse of `d`.
pub proof fn lemma_observed_symmetric(g: Seq<Seq<TileType>>, cat: Seq<TileType>, a: int, d: Direction, b: int)
    ensures
        observed(g, cat, a, d, b) == observed(g, cat, b, inverse_spec(d), a),
{
    if observed(g, cat, a, d, b) {
        let (x, y) = choose|x: int, y: int|
            #[trigger] in_grid(g, x, y) && in_grid(g, step(x, y, d).0, step(x, y, d).1)
                && g[y][x] == cat[a] && g[step(x, y, d).1][step(x, y, d).0] == cat[b];
        let (nx, ny) = step(x, y, d);
        lemma_step_inverse(x, y, d);
        assert(in_grid(g, nx, ny));
    }
    if observed(g, cat, b, inverse_spec(d), a) {
        let e = inverse_spec(d);
        let (x, y) = choose|x: int, y: int|
            #[trigger] in_grid(g, x, y) && in_grid(g, step(x, y, e).0, step(x, y, e).1)
                && g[y][x] == cat[b] && g[step(x, y, e).1][step(x, y, e).0] == cat[a];
        let (nx, ny) = step(x, y, e);
        lemma_step_inverse(x, y, e);
        assert(in_grid(g, nx, ny));
    }
}

/// The adjacency facts learned from a sample grid, and how often each tile
/// occurred there. Never changed once built.
pub struct AdjacencyModel {
    tile_count: usize,
    facts: Vec<(usize, Direction, usize)>,
    counts: Vec<usize>,
}

impl AdjacencyModel {
    /// The number of tile identifiers the model speaks of.
    pub closed spec fn tile_count_spec(&self) -> nat {
        self.tile_count as nat
    }

    /// The recorded facts `(a, d, b)`: `b` may lie next to `a` in direction `d`.
    pub closed spec fn facts_spec(&self) -> Seq<(usize, Direction, usize)> {
        self.facts@
    }

    /// The occurrence count of each tile identifier.
    pub closed spec fn counts_spec(&self) -> Seq<usize> {
        self.counts@
    }

    pub open spec fn wf(&self) -> bool {
        &&& self.counts_spec().len() == self.tile_count_spec()
        &&& forall|k: int|
            0 <= k < self.facts_spec().len() ==> (#[trigger] self.facts_spec()[k]).0 < self.tile_count_spec()
                && self.facts_spec()[k].2 < self.tile_count_spec()
    }

    /// `b` may lie next to `a` in direction `d`.
    pub open spec fn allows_spec(&self, a: int, d: Direction, b: int) -> bool {
        exists|k: int|
            0 <= k < self.facts_spec().len() && #[trigger] self.facts_spec()[k] == (a as usize, d, b as usize)
                && 0 <= a < self.tile_count_spec() && 0 <= b < self.tile_count_spec()
    }

    /// The model holds exactly what the sample grid `g`, read through the
    /// catalog `cat`, shows.
    pub open spec fn learned_from(&self, g: Seq<Seq<TileType>>, cat: Seq<TileType>) -> bool {
        &&& self.wf()
        &&& self.tile_count_spec() == cat.len()
        &&& forall|a: int, d: Direction, b: int| #[trigger] self.allows_spec(a, d, b) == observed(g, cat, a, d, b)
    }

    /// The model's weights are the occurrence counts of each tile in `g`.
    pub open spec fn counts_match(&self, g: Seq<Seq<TileType>>, cat: Seq<TileType>) -> bool {
        forall|t: int| 0 <= t < cat.len() ==> self.counts_spec()[t] == occurrences(g, #[trigger] cat[t])
    }

    /// The number of tile identifiers the model speaks of.
    pub fn tile_count(&self) -> (n: usize)
        ensures
            n == self.tile_count_spec(),
    {
        self.tile_count
    }

    /// Whether `candidate` may lie next to `tile` in direction `d`.
    pub fn allows(&self, tile: usize, d: Direction, candidate: usize) -> (r: bool)
        requires
            self.wf(),
        ensures
            r == self.allows_spec(tile as int, d, candidate as int),
    {
        let mut k: usize = 0;
        while k < self.facts.len()
            invariant
                self.wf(),
                k <= self.facts@.len(),
                forall|j: int| 0 <= j < k ==> self.facts@[j] != (tile, d, candidate),
            decreases self.facts.len() - k,
        {
            let f = self.facts[k];
            if f.0 == tile && f.1 == d && f.2 == candidate {
                assert(self.facts_spec()[k as int] == (tile, d, candidate));
                return true;
            }
            k = k + 1;
        }
        false
    }

    /// How often `tile` occurred in the sample: its weight when a cell is
    /// collapsed. Identifiers outside the model weigh nothing.
    pub fn frequency(&self, tile: usize) -> (r: usize)
        requires
            self.wf(),
        ensures
            tile < self.tile_count_spec() ==> r == self.counts_spec()[tile as int],
            tile >= self.tile_count_spec() ==> r == 0,
    {
        if tile < self.counts.len() {
            self.counts[tile]
        } else {
            0
        }
    }

    /// Learns a model, and the catalog it speaks through, from a sample grid.
    pub fn learn(sample: &Vec<Vec<TileType>>) -> (r: (TileCatalog, AdjacencyModel))
        ensures
            r.0.wf(),
            covers(r.0@, grid_view(sample)),
            forall|t: int| 0 <= t < r.0@.len() ==> #[trigger] occurs(grid_view(sample), r.0@[t]),
            r.1.learned_from(grid_view(sample), r.0@),
            total_cells(grid_view(sample)) <= usize::MAX ==> r.1.counts_match(grid_view(sample), r.0@),
    {
        let catalog = TileCatalog::from_sample(sample);
        let model = build_adjacency_rules(sample, &catalog);
        (catalog, model)
    }
}

/// A model learned from any sample grid is symmetric: `b` may lie next to `a`
/// in direction `d` exactly when `a` may lie next to `b` in the inverse
/// direction.
pub proof fn lemma_learned_model_symmetric(
    m: AdjacencyModel,
    g: Seq<Seq<TileType>>,
    cat: Seq<TileType>,
    a: int,
    d: Direction,
    b: int,
)
    requires
        m.learned_from(g, cat),
    ensures
        m.allows_spec(a, d, b) == m.allows_spec(b, inverse_spec(d), a),
{
    lemma_observed_symmetric(g, cat, a, d, b);
    assert(m.allows_spec(a, d, b) == observed(g, cat, a, d, b));
    assert(m.allows_spec(b, inverse_spec(d), a) == observed(g, cat, b, inverse_spec(d), a));
}

/// Every recorded fact was observed.
pub open spec fn sound(facts: Seq<(usize, Direction, usize)>, g: Seq<Seq<TileType>>, cat: Seq<TileType>) -> bool {
    forall|h: (usize, Direction, usize)| #[trigger] facts.contains(h) ==> observed(g, cat, h.0 as int, h.1, h.2 as int)
}

/// The cell at column `x`, row `y` and its neighbour towards `d` show `b`
/// next to `a` in that direction.
pub open spec fn seen_at(
    g: Seq<Seq<TileType>>,
    cat: Seq<TileType>,
    x: int,
    y: int,
    d: Direction,
    a: int,
    b: int,
) -> bool {
    &&& in_grid(g, step(x, y, d).0, step(x, y, d).1)
    &&& 0 <= a < cat.len()
    &&& 0 <= b < cat.len()
    &&& cat[a] == g[y][x]
    &&& cat[b] == g[step(x, y, d).1][step(x, y, d).0]
}

/// The neighbour of a cell of the sample grid towards `d`, if it is on the grid.
fn sample_neighbour(sample: &Vec<Vec<TileType>>, x: usize, y: usize, d: Direction) -> (r: Option<(usize, usize)>)
    requires
        in_grid(grid_view(sample), x as int, y as int),
    ensures
        match r {
            Some(p) => (p.0 as int, p.1 as int) == step(x as int, y as int, d)
                && in_grid(grid_view(sample), p.0 as int, p.1 as int),
            None => !in_grid(grid_view(sample), step(x as int, y as int, d).0, step(x as int, y as int, d).1),
        },
{
    assert(grid_view(sample)[y as int] == sample@[y as int]@);
    let rows = sample.len();
    let cols = sample[y].len();
    match d {
        Direction::Up => {
            if y > 0 && x < sample[y - 1].len() {
                Some((x, y - 1))
            } else {
                None
            }
        },
        Direction::Down => {
            if y + 1 < rows && x < sample[y + 1].len() {
                Some((x, y + 1))
            } else {
                None
            }
        },
        Direction::Left => {
            if x > 0 {
                Some((x - 1, y))
            } else {
                None
            }
        },
        Direction::Right => {
            if x + 1 < cols {
                Some((x + 1, y))
            } else {
                None
            }
        },
    }
}

/// Adds a fact unless it is already recorded.
fn add_fact(facts: &mut Vec<(usize, Direction, usize)>, f: (usize, Direction, usize))
    ensures
        forall|h: (usize, Direction, usize)| #[trigger] final(facts)@.contains(h) <==> (old(facts)@.contains(h) || h == f),
{
    let mut k: usize = 0;
    while k < facts.len()
        invariant
            k <= facts@.len(),
            forall|j: int| 0 <= j < k ==> facts@[j] != f,
        decreases facts.len() - k,
    {
        let h = facts[k];
        if h.0 == f.0 && h.1 == f.1 && h.2 == f.2 {
            assert(facts@[k as int] == f);
            return;
        }
        k = k + 1;
    }
    let ghost before = facts@;
    facts.push(f);
    proof {
        assert forall|h: (usize, Direction, usize)| #[trigger] facts@.contains(h) <==> (before.contains(h) || h == f) by {
            if facts@.contains(h) {
                let j = choose|j: int| 0 <= j < facts@.len() && facts@[j] == h;
                if j < before.len() {
                    assert(before[j] == h);
                }
            }
            if before.contains(h) {
                let j = choose|j: int| 0 <= j < before.len() && before[j] == h;
                assert(facts@[j] == h);
            }
            if h == f {
                assert(facts@[before.len() as int] == f);
            }
        }
    }
}

/// Records what the cell at column `x`, row `y` shows about its neighbours,
/// each fact together with its mirror image.
fn record_cell(
    sample: &Vec<Vec<TileType>>,
    catalog: &TileCatalog,
    facts: &mut Vec<(usize, Direction, usize)>,
    x: usize,
    y: usize,
)
    requires
        in_grid(grid_view(sample), x as int, y as int),
        catalog.wf(),
        covers(catalog@, grid_view(sample)),
        sound(old(facts)@, grid_view(sample), catalog@),
    ensures
        sound(final(facts)@, grid_view(sample), catalog@),
        forall|h: (usize, Direction, usize)| old(facts)@.contains(h) ==> #[trigger] final(facts)@.contains(h),
        forall|d: Direction, a: usize, b: usize|
            seen_at(grid_view(sample), catalog@, x as int, y as int, d, a as int, b as int)
                ==> #[trigger] final(facts)@.contains((a, d, b)),
{
    let ghost g = grid_view(sample);
    let ghost cat = catalog@;
    let ghost start = facts@;
    let dirs = Direction::all();
    assert(in_grid(g, x as int, y as int));
    let a = catalog.id_of(sample[y][x]).unwrap();
    let mut i: usize = 0;
    while i < 4
        invariant
            g == grid_view(sample),
            cat == catalog@,
            catalog.wf(),
            covers(cat, g),
            in_grid(g, x as int, y as int),
            a < cat.len(),
            cat[a as int] == g[y as int][x as int],
            dirs@ == seq![Direction::Up, Direction::Down, Direction::Left, Direction::Right],
            i <= 4,
            sound(facts@, g, cat),
            forall|h: (usize, Direction, usize)| start.contains(h) ==> #[trigger] facts@.contains(h),
            forall|j: int, a2: usize, b2: usize|
                0 <= j < i && seen_at(g, cat, x as int, y as int, dirs@[j], a2 as int, b2 as int)
                    ==> #[trigger] facts@.contains((a2, dirs@[j], b2)),
        decreases 4 - i,
    {
        let d = dirs[i];
        match sample_neighbour(sample, x, y, d) {
            Some(p) => {
                let (nx, ny) = p;
                assert(in_grid(g, nx as int, ny as int));
                let b = catalog.id_of(sample[ny][nx]).unwrap();
                let e = d.inverse();
                add_fact(facts, (a, d, b));
                add_fact(facts, (b, e, a));
                proof {
                    assert(observed(g, cat, a as int, d, b as int));
                    lemma_observed_symmetric(g, cat, a as int, d, b as int);
                    assert forall|a2: usize, b2: usize|
                        seen_at(g, cat, x as int, y as int, d, a2 as int, b2 as int) implies
                        #[trigger] facts@.contains((a2, d, b2)) by {
                        assert(cat[a2 as int] == cat[a as int]);
                        assert(cat[b2 as int] == cat[b as int]);
                    }
                    assert(facts@.contains((a, d, b)));
                }
            },
            None => {},
        }
        i = i + 1;
    }
    proof {
        assert forall|d: Direction, a2: usize, b2: usize|
            seen_at(g, cat, x as int, y as int, d, a2 as int, b2 as int) implies
            #[trigger] facts@.contains((a2, d, b2)) by {
            let j: int = match d {
                Direction::Up => 0,
                Direction::Down => 1,
                Direction::Left => 2,
                Direction::Right => 3,
            };
            assert(dirs@[j] == d);
        }
    }
}

/// The number of cells of the first rows only grows with more rows.
proof fn lemma_cells_in_rows_mono(g: Seq<Seq<TileType>>, m: int, k: int)
    requires
        m <= k,
    ensures
        cells_in_rows(g, m) <= cells_in_rows(g, k),
    decreases k - m,
{
    if m < k {
        lemma_cells_in_rows_mono(g, m, k - 1);
    }
}

/// Counts how often each registered tile type occurs in the sample.
fn count_occurrences(sample: &Vec<Vec<TileType>>, catalog: &TileCatalog) -> (counts: Vec<usize>)
    requires
        catalog.wf(),
        covers(catalog@, grid_view(sample)),
    ensures
        counts@.len() == catalog@.len(),
        total_cells(grid_view(sample)) <= usize::MAX ==> forall|t: int|
            0 <= t < catalog@.len() ==> counts@[t] == occurrences(grid_view(sample), #[trigger] catalog@[t]),
{
    let ghost g = grid_view(sample);
    let ghost cat = catalog@;
    let ghost bounded = total_cells(g) <= usize::MAX;
    let n = catalog.count();
    let mut counts: Vec<usize> = Vec::new();
    let mut t: usize = 0;
    while t < n
        invariant
            t <= n,
            n == cat.len(),
            counts@.len() == t,
            forall|j: int| 0 <= j < t ==> counts@[j] == 0,
        decreases n - t,
    {
        counts.push(0);
        t = t + 1;
    }
    let mut y: usize = 0;
    while y < sample.len()
        invariant
            g == grid_view(sample),
            cat == catalog@,
            catalog.wf(),
            covers(cat, g),
            bounded == (total_cells(g) <= usize::MAX),
            y <= sample.len(),
            counts@.len() == cat.len(),
            bounded ==> forall|j: int| 0 <= j < cat.len() ==> counts@[j] == occ_rows(g, #[trigger] cat[j], y as int),
            bounded ==> forall|j: int| 0 <= j < cat.len() ==> counts@[j] <= cells_in_rows(g, y as int),
        decreases sample.len() - y,
    {
        let row = &sample[y];
        proof {
            lemma_cells_in_rows_mono(g, y as int + 1, g.len() as int);
        }
        let mut x: usize = 0;
        while x < row.len()
            invariant
                g == grid_view(sample),
                cat == catalog@,
                catalog.wf(),
                covers(cat, g),
                y < sample.len(),
                row@ == g[y as int],
                x <= row.len(),
                bounded ==> cells_in_rows(g, y as int + 1) <= usize::MAX,
                counts@.len() == cat.len(),
                bounded ==> forall|j: int|
                    0 <= j < cat.len() ==> counts@[j] == occ_rows(g, #[trigger] cat[j], y as int)
                        + occ_row(g[y as int], cat[j], x as int),
                bounded ==> forall|j: int| 0 <= j < cat.len() ==> counts@[j] <= cells_in_rows(g, y as int) + x,
            decreases row.len() - x,
        {
            assert(in_grid(g, x as int, y as int));
            let id = catalog.id_of(row[x]).unwrap();
            let c = counts[id];
            counts.set(id, c.saturating_add(1));
            proof {
                if bounded {
                assert forall|j: int|
                    0 <= j < cat.len() implies counts@[j] == occ_rows(g, #[trigger] cat[j], y as int)
                        + occ_row(g[y as int], cat[j], x as int + 1) by {
                    if j != id {
                        assert(cat[j] != cat[id as int]);
                    }
                }
                }
            }
            x = x + 1;
        }
        y = y + 1;
    }
    counts
}

/// Learns which tile identifiers may lie next to which in each direction,
/// scanning every cell of the sample and recording each in-bounds neighbour
/// both ways round, and counts how often each tile occurs.
pub fn build_adjacency_rules(input_grid: &Vec<Vec<TileType>>, catalog: &TileCatalog) -> (m: AdjacencyModel)
    requires
        catalog.wf(),
        covers(catalog@, grid_view(input_grid)),
    ensures
        m.learned_from(grid_view(input_grid), catalog@),
        total_cells(grid_view(input_grid)) <= usize::MAX ==> m.counts_match(grid_view(input_grid), catalog@),
{
    let ghost g = grid_view(input_grid);
    let ghost cat = catalog@;
    let mut facts: Vec<(usize, Direction, usize)> = Vec::new();
    let mut y: usize = 0;
    while y < input_grid.len()
        invariant
            g == grid_view(input_grid),
            cat == catalog@,
            catalog.wf(),
            covers(cat, g),
            y <= input_grid.len(),
            sound(facts@, g, cat),
            forall|cx: int, cy: int, d: Direction, a: usize, b: usize|
                0 <= cy < y && #[trigger] in_grid(g, cx, cy) && seen_at(g, cat, cx, cy, d, a as int, b as int)
                    ==> #[trigger] facts@.contains((a, d, b)),
        decreases input_grid.len() - y,
    {
        let mut x: usize = 0;
        while x < input_grid[y].len()
            invariant
                g == grid_view(input_grid),
                cat == catalog@,
                catalog.wf(),
                covers(cat, g),
                y < input_grid.len(),
                x <= g[y as int].len(),
                sound(facts@, g, cat),
                forall|cx: int, cy: int, d: Direction, a: usize, b: usize|
                    (0 <= cy < y || (cy == y && cx < x)) && #[trigger] in_grid(g, cx, cy)
                        && seen_at(g, cat, cx, cy, d, a as int, b as int)
                        ==> #[trigger] facts@.contains((a, d, b)),
            decreases g[y as int].len() - x,
        {
            record_cell(input_grid, catalog, &mut facts, x, y);
            x = x + 1;
        }
        y = y + 1;
    }
    let counts = count_occurrences(input_grid, catalog);
    let m = AdjacencyModel { tile_count: catalog.count(), facts, counts };
    proof {
        assert forall|k: int| 0 <= k < m.facts_spec().len() implies (#[trigger] m.facts_spec()[k]).0
            < m.tile_count_spec() && m.facts_spec()[k].2 < m.tile_count_spec() by {
            assert(m.facts_spec().contains(m.facts_spec()[k]));
        }
        assert forall|a: int, d: Direction, b: int| #[trigger] m.allows_spec(a, d, b) == observed(g, cat, a, d, b) by {
            if m.allows_spec(a, d, b) {
                let k = choose|k: int|
                    0 <= k < m.facts_spec().len() && #[trigger] m.facts_spec()[k] == (a as usize, d, b as usize)
                        && 0 <= a < m.tile_count_spec() && 0 <= b < m.tile_count_spec();
                assert(m.facts_spec().contains(m.facts_spec()[k]));
            }
            if observed(g, cat, a, d, b) {
                let (x, y) = choose|x: int, y: int|
                    #[trigger] in_grid(g, x, y) && in_grid(g, step(x, y, d).0, step(x, y, d).1)
                        && g[y][x] == cat[a] && g[step(x, y, d).1][step(x, y, d).0] == cat[b];
                assert(seen_at(g, cat, x, y, d, a as usize as int, b as usize as int));
                assert(facts@.contains((a as usize, d, b as usize)));
                let k = choose|k: int| 0 <= k < facts@.len() && facts@[k] == (a as usize, d, b as usize);
                assert(m.facts_spec()[k] == (a as usize, d, b as usize));
            }
        }
    }
    m
}

/// Tile `b` may lie towards `d` from a cell whose possibilities are `p`:
/// some tile still possible there allows it.
pub open spec fn supported(m: AdjacencyModel, p: Seq<bool>, d: Direction, b: int) -> bool {
    exists|a: int| 0 <= a < p.len() && p[a] && #[trigger] m.allows_spec(a, d, b)
}

impl AdjacencyModel {
    /// The tiles that may lie towards `d` from a cell whose possibilities
    /// are `p`: the union, over the tiles `p` holds, of what each allows there.
    pub fn supported_neighbours(&self, p: &Vec<bool>, d: Direction) -> (r: Vec<bool>)
        requires
            self.wf(),
            p@.len() == self.tile_count_spec(),
        ensures
            r@.len() == self.tile_count_spec(),
            forall|b: int| 0 <= b < r@.len() ==> r@[b] == supported(*self, p@, d, b),
    {
        let n = self.tile_count;
        let mut r: Vec<bool> = Vec::new();
        let mut i: usize = 0;
        while i < n
            invariant
                i <= n,
                r@ == Seq::new(i as nat, |j: int| false),
            decreases n - i,
        {
            r.push(false);
            i = i + 1;
            assert(r@ =~= Seq::new(i as nat, |j: int| false));
        }
        let mut k: usize = 0;
        while k < self.facts.len()
            invariant
                self.wf(),
                n == self.tile_count,
                p@.len() == n,
                k <= self.facts@.len(),
                r@.len() == n,
                forall|b: int| 0 <= b < n ==> r@[b] == exists|j: int|
                    0 <= j < k && (#[trigger] self.facts@[j]).1 == d && self.facts@[j].2 == b && p@[self.facts@[j].0 as int],
            decreases self.facts.len() - k,
        {
            let f = self.facts[k];
            assert(self.facts_spec()[k as int] == f);
            if f.1 == d && p[f.0] {
                r.set(f.2, true);
            }
            proof {
                assert forall|b: int| 0 <= b < n implies r@[b] == exists|j: int|
                    0 <= j < k + 1 && (#[trigger] self.facts@[j]).1 == d && self.facts@[j].2 == b
                        && p@[self.facts@[j].0 as int] by {
                    if r@[b] && !(exists|j: int| 0 <= j < k && (#[trigger] self.facts@[j]).1 == d
                        && self.facts@[j].2 == b && p@[self.facts@[j].0 as int]) {
                        assert(self.facts@[k as int].2 == b);
                    }
                }
            }
            k = k + 1;
        }
        proof {
            assert forall|b: int| 0 <= b < r@.len() implies r@[b] == supported(*self, p@, d, b) by {
                if r@[b] {
                    let j = choose|j: int| 0 <= j < self.facts@.len() && (#[trigger] self.facts@[j]).1 == d
                        && self.facts@[j].2 == b && p@[self.facts@[j].0 as int];
                    let a = self.facts@[j].0 as int;
                    assert(self.facts_spec()[j] == (a as usize, d, b as usize));
                    assert(self.allows_spec(a, d, b));
                }
                if supported(*self, p@, d, b) {
                    let a = choose|a: int| 0 <= a < p@.len() && p@[a] && #[trigger] self.allows_spec(a, d, b);
                    let j = choose|j: int| 0 <= j < self.facts_spec().len()
                        && #[trigger] self.facts_spec()[j] == (a as usize, d, b as usize)
                        && 0 <= a < self.tile_count_spec() && 0 <= b < self.tile_count_spec();
                    assert(self.facts@[j].1 == d && self.facts@[j].2 == b && p@[self.facts@[j].0 as int]);
                }
            }
        }
        r
    }
}

} // verus!

verus! {

/// Learns the adjacency model of a sample grid under the standard
/// numbering of the palette.
pub fn sps_usage_test(input_grid: &Vec<Vec<TileType>>) -> (m: AdjacencyModel)
    ensures
        m.learned_from(grid_view(input_grid), palette()),
        total_cells(grid_view(input_grid)) <= usize::MAX ==> m.counts_match(grid_view(input_grid), palette()),
{
    let catalog = TileCatalog::standard();
    proof {
        let g = grid_view(input_grid);
        assert forall|x: int, y: int| #[trigger] in_grid(g, x, y) implies palette().contains(g[y][x]) by {
            let t = g[y][x];
            let i: int = match t {
                TileType::Empty => 0,
                TileType::Mountain => 1,
                TileType::Land => 2,
                TileType::Coast => 3,
                TileType::Water => 4,
            };
            assert(palette()[i] == t);
        }
    }
    build_adjacency_rules(input_grid, &catalog)
}

} // verus!
