use vstd::prelude::*;
use crate::tile::{TileType, WfcError};

verus! {

/// How many of the first `n` entries are set.
pub open spec fn count_prefix(s: Seq<bool>, n: int) -> nat
    decreases n,
{
    if n <= 0 {
        0
    } else {
        count_prefix(s, n - 1) + if s[n - 1] { 1nat } else { 0nat }
    }
}

/// How many entries are set: the size of the possibility set a bitmap stands for.
pub open spec fn count_true(s: Seq<bool>) -> nat {
    count_prefix(s, s.len() as int)
}

/// The possibility set that keeps what both bitmaps allow.
pub open spec fn intersect(a: Seq<bool>, b: Seq<bool>) -> Seq<bool> {
    Seq::new(a.len(), |i: int| a[i] && b[i])
}

/// The bitmap of length `n` that holds `t` alone.
pub open spec fn singleton(n: nat, t: int) -> Seq<bool> {
    Seq::new(n, |i: int| i == t)
}

/// Every entry set in `s` is set in `t`.
pub open spec fn subset_of(s: Seq<bool>, t: Seq<bool>) -> bool {
    s.len() == t.len() && forall|i: int| 0 <= i < s.len() && #[trigger] s[i] ==> t[i]
}

pub proof fn lemma_count_subset(s: Seq<bool>, t: Seq<bool>, n: int)
    requires
        0 <= n <= s.len(),
        subset_of(s, t),
    ensures
        count_prefix(s, n) <= count_prefix(t, n),
        (exists|i: int| 0 <= i < n && t[i] && !s[i]) ==> count_prefix(s, n) < count_prefix(t, n),
    decreases n,
{
    if n > 0 {
        lemma_count_subset(s, t, n - 1);
        if exists|i: int| 0 <= i < n && t[i] && !s[i] {
            let i = choose|i: int| 0 <= i < n && t[i] && !s[i];
            if i < n - 1 {
                assert(exists|j: int| 0 <= j < n - 1 && t[j] && !s[j]);
            }
        }
    }
}

pub proof fn lemma_count_zero(s: Seq<bool>, n: int)
    requires
        0 <= n <= s.len(),
    ensures
        count_prefix(s, n) == 0 <==> forall|i: int| 0 <= i < n ==> !s[i],
    decreases n,
{
    if n > 0 {
        lemma_count_zero(s, n - 1);
    }
}

pub proof fn lemma_count_singleton(s: Seq<bool>, t: int, n: int)
    requires
        0 <= n <= s.len(),
        forall|i: int| 0 <= i < s.len() ==> s[i] == (i == t),
    ensures
        count_prefix(s, n) == if 0 <= t < n { 1nat } else { 0nat },
    decreases n,
{
    if n > 0 {
        lemma_count_singleton(s, t, n - 1);
    }
}

pub proof fn lemma_count_full(s: Seq<bool>, n: int)
    requires
        0 <= n <= s.len(),
        forall|i: int| 0 <= i < s.len() ==> s[i],
    ensures
        count_prefix(s, n) == n,
    decreases n,
{
    if n > 0 {
        lemma_count_full(s, n - 1);
    }
}

/// A set of one element is the singleton of that element.
pub proof fn lemma_count_one(s: Seq<bool>, t: int)
    requires
        count_true(s) == 1,
        0 <= t < s.len(),
        s[t],
    ensures
        s == singleton(s.len(), t),
{
    let o = singleton(s.len(), t);
    assert forall|i: int| 0 <= i < s.len() implies s[i] == o[i] by {
        if s[i] && i != t {
            lemma_count_singleton(o, t, s.len() as int);
            lemma_count_subset(o, s, s.len() as int);
        }
    }
    assert(s =~= o);
}

/// What is still possible at one output cell.
pub struct SuperpositionState {
    /// Entry `t` is set while tile `t` is still possible.
    pub possible_tiles: Vec<bool>,
    /// The cell was committed to its single remaining tile.
    pub collapsed: bool,
    /// The number of tiles still possible.
    pub entropy: usize,
}

impl SuperpositionState {
    /// A well-formed state over `n` tile identifiers.
    pub open spec fn wf(&self, n: nat) -> bool {
        &&& self.possible_tiles@.len() == n
        &&& self.entropy == count_true(self.possible_tiles@)
        &&& self.collapsed ==> self.entropy == 1
    }

    /// Every tile from 0 to `tile_count - 1` is possible; nothing is committed.
    pub fn new(tile_count: usize) -> (s: SuperpositionState)
        ensures
            s.wf(tile_count as nat),
            s.possible_tiles@ == Seq::new(tile_count as nat, |i: int| true),
            !s.collapsed,
            s.entropy == tile_count,
    {
        let mut possible_tiles: Vec<bool> = Vec::new();
        let mut i: usize = 0;
        while i < tile_count
            invariant
                i <= tile_count,
                possible_tiles@ == Seq::new(i as nat, |j: int| true),
            decreases tile_count - i,
        {
            possible_tiles.push(true);
            i = i + 1;
            assert(possible_tiles@ =~= Seq::new(i as nat, |j: int| true));
        }
        proof {
            lemma_count_full(possible_tiles@, tile_count as int);
        }
        SuperpositionState { possible_tiles, collapsed: false, entropy: tile_count }
    }

    /// A cell committed to `tile_id` out of `tile_count` identifiers.
    pub fn from_tile(tile_id: usize, tile_count: usize) -> (s: SuperpositionState)
        requires
            tile_id < tile_count,
        ensures
            s.wf(tile_count as nat),
            s.possible_tiles@ == singleton(tile_count as nat, tile_id as int),
            s.collapsed,
            s.entropy == 1,
    {
        let mut possible_tiles: Vec<bool> = Vec::new();
        let mut i: usize = 0;
        while i < tile_count
            invariant
                i <= tile_count,
                possible_tiles@ == Seq::new(i as nat, |j: int| j == tile_id),
            decreases tile_count - i,
        {
            possible_tiles.push(i == tile_id);
            i = i + 1;
            assert(possible_tiles@ =~= Seq::new(i as nat, |j: int| j == tile_id));
        }
        proof {
            lemma_count_singleton(possible_tiles@, tile_id as int, tile_count as int);
        }
        SuperpositionState { possible_tiles, collapsed: true, entropy: 1 }
    }

    /// A copy with the same possibilities.
    pub fn duplicate(&self) -> (s: SuperpositionState)
        ensures
            s.possible_tiles@ == self.possible_tiles@,
            s.collapsed == self.collapsed,
            s.entropy == self.entropy,
    {
        let mut possible_tiles: Vec<bool> = Vec::new();
        let mut i: usize = 0;
        while i < self.possible_tiles.len()
            invariant
                i <= self.possible_tiles@.len(),
                possible_tiles@ == self.possible_tiles@.subrange(0, i as int),
            decreases self.possible_tiles.len() - i,
        {
            possible_tiles.push(self.possible_tiles[i]);
            i = i + 1;
            assert(possible_tiles@ =~= self.possible_tiles@.subrange(0, i as int));
        }
        assert(possible_tiles@ =~= self.possible_tiles@);
        SuperpositionState { possible_tiles, collapsed: self.collapsed, entropy: self.entropy }
    }
}

/// What a cell weighs in the solver's progress measure: its possibilities,
/// and one more while it is not committed.
pub open spec fn cell_measure(c: SuperpositionState) -> nat {
    count_true(c.possible_tiles@) + if c.collapsed { 0nat } else { 1nat }
}

pub open spec fn row_measure(r: Seq<SuperpositionState>, k: int) -> nat
    decreases k,
{
    if k <= 0 {
        0
    } else {
        row_measure(r, k - 1) + cell_measure(r[k - 1])
    }
}

pub open spec fn rows_measure(g: Seq<Vec<SuperpositionState>>, m: int) -> nat
    decreases m,
{
    if m <= 0 {
        0
    } else {
        rows_measure(g, m - 1) + row_measure(g[m - 1]@, g[m - 1]@.len() as int)
    }
}

proof fn lemma_row_measure_update(r: Seq<SuperpositionState>, x: int, c: SuperpositionState, k: int)
    requires
        0 <= x < r.len(),
        0 <= k <= r.len(),
    ensures
        x < k ==> row_measure(r.update(x, c), k) + cell_measure(r[x]) == row_measure(r, k) + cell_measure(c),
        x >= k ==> row_measure(r.update(x, c), k) == row_measure(r, k),
    decreases k,
{
    if k > 0 {
        lemma_row_measure_update(r, x, c, k - 1);
    }
}

proof fn lemma_rows_measure_update(g: Seq<Vec<SuperpositionState>>, y: int, r: Vec<SuperpositionState>, m: int)
    requires
        0 <= y < g.len(),
        0 <= m <= g.len(),
    ensures
        y < m ==> rows_measure(g.update(y, r), m) + row_measure(g[y]@, g[y]@.len() as int)
            == rows_measure(g, m) + row_measure(r@, r@.len() as int),
        y >= m ==> rows_measure(g.update(y, r), m) == rows_measure(g, m),
    decreases m,
{
    if m > 0 {
        lemma_rows_measure_update(g, y, r, m - 1);
    }
}

/// The solver state: for each cell of a `width` by `height` output grid,
/// addressed by column `x` and row `y`, the tiles still possible there.
pub struct Wave {
    width: usize,
    height: usize,
    tile_count: usize,
    cells: Vec<Vec<SuperpositionState>>,
}

impl Wave {
    pub closed spec fn width_spec(&self) -> nat {
        self.width as nat
    }

    pub closed spec fn height_spec(&self) -> nat {
        self.height as nat
    }

    pub closed spec fn tile_count_spec(&self) -> nat {
        self.tile_count as nat
    }

    /// The state of the cell at column `x`, row `y`.
    pub closed spec fn cell(&self, x: int, y: int) -> SuperpositionState {
        self.cells@[y]@[x]
    }

    /// The solver's progress measure: the possibilities left, plus one for
    /// each cell not yet committed. Every step of the solver lowers it.
    pub closed spec fn measure(&self) -> nat {
        rows_measure(self.cells@, self.height as int)
    }

    pub closed spec fn shape_ok(&self) -> bool {
        &&& self.cells@.len() == self.height
        &&& forall|j: int| 0 <= j < self.height ==> (#[trigger] self.cells@[j])@.len() == self.width
    }

    pub open spec fn in_bounds(&self, x: int, y: int) -> bool {
        0 <= x < self.width_spec() && 0 <= y < self.height_spec()
    }

    /// The tiles still possible at column `x`, row `y`.
    pub open spec fn poss(&self, x: int, y: int) -> Seq<bool> {
        self.cell(x, y).possible_tiles@
    }

    pub open spec fn wf(&self) -> bool {
        &&& self.shape_ok()
        &&& self.width_spec() <= usize::MAX
        &&& self.height_spec() <= usize::MAX
        &&& self.tile_count_spec() <= usize::MAX
        &&& forall|x: int, y: int| self.in_bounds(x, y) ==> (#[trigger] self.cell(x, y)).wf(self.tile_count_spec())
    }

    pub open spec fn same_shape(&self, o: &Wave) -> bool {
        &&& self.width_spec() == o.width_spec()
        &&& self.height_spec() == o.height_spec()
        &&& self.tile_count_spec() == o.tile_count_spec()
    }

    /// Every cell but the one at column `x`, row `y` is as in `o`.
    pub open spec fn same_except(&self, o: &Wave, x: int, y: int) -> bool {
        &&& self.same_shape(o)
        &&& forall|cx: int, cy: int|
            self.in_bounds(cx, cy) && (cx, cy) != (x, y) ==> #[trigger] self.cell(cx, cy) == o.cell(cx, cy)
    }

    /// No cell has gained a possibility with respect to `o`.
    pub open spec fn shrunk_from(&self, o: &Wave) -> bool {
        &&& self.same_shape(o)
        &&& forall|cx: int, cy: int|
            self.in_bounds(cx, cy) ==> subset_of(#[trigger] self.poss(cx, cy), o.poss(cx, cy))
    }

    /// Every cell is committed.
    pub open spec fn all_collapsed(&self) -> bool {
        forall|x: int, y: int| self.in_bounds(x, y) ==> (#[trigger] self.cell(x, y)).collapsed
    }

    proof fn lemma_measure_after_write(old: Wave, new: Wave, x: int, y: int)
        requires
            old.wf(),
            old.in_bounds(x, y),
            new.height == old.height,
            new.cells@.len() == old.cells@.len(),
            new.cells@[y]@ == old.cells@[y]@.update(x, new.cells@[y]@[x]),
            forall|j: int| 0 <= j < old.cells@.len() && j != y ==> new.cells@[j] == old.cells@[j],
        ensures
            new.measure() + cell_measure(old.cell(x, y)) == old.measure() + cell_measure(new.cell(x, y)),
    {
        assert(new.cells@ =~= old.cells@.update(y, new.cells@[y]));
        lemma_rows_measure_update(old.cells@, y, new.cells@[y], old.height as int);
        lemma_row_measure_update(old.cells@[y]@, x, new.cells@[y]@[x], old.cells@[y]@.len() as int);
    }

    /// A `width` by `height` wave whose every cell allows each of the
    /// `tile_count` tiles and is not committed.
    pub fn new(width: usize, height: usize, tile_count: usize) -> (w: Wave)
        ensures
            w.wf(),
            w.width_spec() == width,
            w.height_spec() == height,
            w.tile_count_spec() == tile_count,
            forall|x: int, y: int| w.in_bounds(x, y) ==> (#[trigger] w.poss(x, y)) == Seq::new(tile_count as nat, |i: int| true)
                && !w.cell(x, y).collapsed,
    {
        let mut cells: Vec<Vec<SuperpositionState>> = Vec::new();
        let mut y: usize = 0;
        while y < height
            invariant
                y <= height,
                cells@.len() == y,
                forall|j: int| 0 <= j < y ==> (#[trigger] cells@[j])@.len() == width,
                forall|i: int, j: int| 0 <= j < y && 0 <= i < width ==> (#[trigger] cells@[j]@[i]).wf(tile_count as nat)
                    && cells@[j]@[i].possible_tiles@ == Seq::new(tile_count as nat, |k: int| true)
                    && !cells@[j]@[i].collapsed,
            decreases height - y,
        {
            let mut row: Vec<SuperpositionState> = Vec::new();
            let mut x: usize = 0;
            while x < width
                invariant
                    x <= width,
                    row@.len() == x,
                    forall|i: int| 0 <= i < x ==> (#[trigger] row@[i]).wf(tile_count as nat)
                        && row@[i].possible_tiles@ == Seq::new(tile_count as nat, |k: int| true)
                        && !row@[i].collapsed,
                decreases width - x,
            {
                row.push(SuperpositionState::new(tile_count));
                x = x + 1;
            }
            cells.push(row);
            y = y + 1;
        }
        Wave { width, height, tile_count, cells }
    }

    pub fn width(&self) -> (r: usize)
        ensures
            r == self.width_spec(),
    {
        self.width
    }

    pub fn height(&self) -> (r: usize)
        ensures
            r == self.height_spec(),
    {
        self.height
    }

    pub fn tile_count(&self) -> (r: usize)
        ensures
            r == self.tile_count_spec(),
    {
        self.tile_count
    }

    /// A copy of the possibility set at column `x`, row `y`.
    pub fn possibilities_at(&self, x: usize, y: usize) -> (r: Vec<bool>)
        requires
            self.wf(),
            self.in_bounds(x as int, y as int),
        ensures
            r@ == self.poss(x as int, y as int),
    {
        let c = self.cells[y][x].duplicate();
        c.possible_tiles
    }

    /// Whether the cell at column `x`, row `y` is committed.
    pub fn is_collapsed(&self, x: usize, y: usize) -> (r: bool)
        requires
            self.wf(),
            self.in_bounds(x as int, y as int),
        ensures
            r == self.cell(x as int, y as int).collapsed,
    {
        self.cells[y][x].collapsed
    }

    /// The number of tiles still possible at column `x`, row `y`.
    pub fn entropy_at(&self, x: usize, y: usize) -> (r: usize)
        requires
            self.wf(),
            self.in_bounds(x as int, y as int),
        ensures
            r == count_true(self.poss(x as int, y as int)),
    {
        assert(self.cell(x as int, y as int).wf(self.tile_count_spec()));
        self.cells[y][x].entropy
    }

    /// Keeps at column `x`, row `y` only the tiles that `allowed` also
    /// allows. Returns whether the set shrank; fails with `Contradiction`,
    /// leaving the wave as it was, where nothing would be left.
    pub fn restrict(&mut self, x: usize, y: usize, allowed: &Vec<bool>) -> (r: Result<bool, WfcError>)
        requires
            old(self).wf(),
            old(self).in_bounds(x as int, y as int),
            allowed@.len() == old(self).tile_count_spec(),
        ensures
            final(self).wf(),
            final(self).same_except(old(self), x as int, y as int),
            final(self).shrunk_from(old(self)),
            (r is Err) <== count_true(intersect(old(self).poss(x as int, y as int), allowed@)) == 0,
            (r is Err) ==> r == Err::<bool, WfcError>(WfcError::Contradiction) && *final(self) == *old(self)
                && count_true(intersect(old(self).poss(x as int, y as int), allowed@)) == 0,
            r == Ok::<bool, WfcError>(false) <==> (intersect(old(self).poss(x as int, y as int), allowed@)
                == old(self).poss(x as int, y as int))
                && count_true(intersect(old(self).poss(x as int, y as int), allowed@)) > 0,
            r == Ok::<bool, WfcError>(false) ==> *final(self) == *old(self),
            r == Ok::<bool, WfcError>(true) ==> final(self).poss(x as int, y as int)
                == intersect(old(self).poss(x as int, y as int), allowed@)
                && final(self).cell(x as int, y as int).collapsed == old(self).cell(x as int, y as int).collapsed
                && final(self).measure() < old(self).measure(),
    {
        let ghost before = *self;
        let ghost p = self.poss(x as int, y as int);
        let ghost q = intersect(p, allowed@);
        let n = self.tile_count;
        assert(self.cell(x as int, y as int).wf(n as nat));
        let mut next: Vec<bool> = Vec::new();
        let mut count: usize = 0;
        let mut changed = false;
        let mut i: usize = 0;
        while i < n
            invariant
                n == self.tile_count,
                *self == before,
                p == self.poss(x as int, y as int),
                p.len() == n,
                allowed@.len() == n,
                q == intersect(p, allowed@),
                self.wf(),
                self.in_bounds(x as int, y as int),
                i <= n,
                next@ == q.subrange(0, i as int),
                count == count_prefix(q, i as int),
                count <= i,
                changed == exists|j: int| 0 <= j < i && p[j] && !allowed@[j],
            decreases n - i,
        {
            let had = self.cells[y][x].possible_tiles[i];
            let keep = had && allowed[i];
            next.push(keep);
            if keep {
                count = count + 1;
            }
            if had && !keep {
                changed = true;
            }
            proof {
                assert(next@ =~= q.subrange(0, i as int + 1));
                if changed && !(had && !keep) {
                    let j = choose|j: int| 0 <= j < i && p[j] && !allowed@[j];
                    assert(0 <= j < i + 1 && p[j] && !allowed@[j]);
                }
                if had && !keep {
                    assert(0 <= i < i + 1 && p[i as int] && !allowed@[i as int]);
                }
            }
            i = i + 1;
        }
        proof {
            assert(next@ =~= q);
            lemma_count_zero(q, n as int);
            lemma_count_subset(q, p, n as int);
            if !changed {
                assert(q =~= p);
            }
            if changed {
                let j = choose|j: int| 0 <= j < n && p[j] && !allowed@[j];
                assert(q[j] != p[j]);
            }
        }
        if count == 0 {
            return Err(WfcError::Contradiction);
        }
        if !changed {
            return Ok(false);
        }
        let collapsed = self.cells[y][x].collapsed;
        self.cells[y][x] = SuperpositionState { possible_tiles: next, collapsed, entropy: count };
        proof {
            Wave::lemma_measure_after_write(before, *self, x as int, y as int);
            assert forall|cx: int, cy: int| self.in_bounds(cx, cy) implies
                subset_of(#[trigger] self.poss(cx, cy), before.poss(cx, cy)) by {
                if (cx, cy) != (x as int, y as int) {
                    assert(self.cell(cx, cy) == before.cell(cx, cy));
                }
            }
            assert forall|cx: int, cy: int| self.in_bounds(cx, cy) implies
                (#[trigger] self.cell(cx, cy)).wf(self.tile_count_spec()) by {
                if (cx, cy) != (x as int, y as int) {
                    assert(self.cell(cx, cy) == before.cell(cx, cy));
                    assert(before.cell(cx, cy).wf(n as nat));
                }
            }
        }
        Ok(true)
    }

    /// Commits the cell at column `x`, row `y` to `tile`; fails with
    /// `InvalidForce`, leaving the wave as it was, where `tile` is no longer
    /// possible there.
    pub fn force(&mut self, x: usize, y: usize, tile: usize) -> (r: Result<(), WfcError>)
        requires
            old(self).wf(),
            old(self).in_bounds(x as int, y as int),
        ensures
            final(self).wf(),
            final(self).same_except(old(self), x as int, y as int),
            final(self).shrunk_from(old(self)),
            (r is Err) <==> (tile >= old(self).tile_count_spec() || !old(self).poss(x as int, y as int)[tile as int]),
            (r is Err) ==> r == Err::<(), WfcError>(WfcError::InvalidForce) && *final(self) == *old(self),
            (r is Ok) ==> final(self).poss(x as int, y as int) == singleton(old(self).tile_count_spec(), tile as int)
                && final(self).cell(x as int, y as int).collapsed
                && final(self).measure() <= old(self).measure()
                && (!old(self).cell(x as int, y as int).collapsed ==> final(self).measure() < old(self).measure()),
    {
        let ghost before = *self;
        let n = self.tile_count;
        assert(self.cell(x as int, y as int).wf(n as nat));
        if tile >= n || !self.cells[y][x].possible_tiles[tile] {
            return Err(WfcError::InvalidForce);
        }
        let next = SuperpositionState::from_tile(tile, n);
        self.cells[y][x] = next;
        proof {
            let p = before.poss(x as int, y as int);
            let o = singleton(n as nat, tile as int);
            assert(subset_of(o, p));
            lemma_count_subset(o, p, n as int);
            lemma_count_singleton(o, tile as int, n as int);
            Wave::lemma_measure_after_write(before, *self, x as int, y as int);
            assert forall|cx: int, cy: int| self.in_bounds(cx, cy) implies
                subset_of(#[trigger] self.poss(cx, cy), before.poss(cx, cy)) by {
                if (cx, cy) != (x as int, y as int) {
                    assert(self.cell(cx, cy) == before.cell(cx, cy));
                }
            }
            assert forall|cx: int, cy: int| self.in_bounds(cx, cy) implies
                (#[trigger] self.cell(cx, cy)).wf(self.tile_count_spec()) by {
                if (cx, cy) != (x as int, y as int) {
                    assert(self.cell(cx, cy) == before.cell(cx, cy));
                    assert(before.cell(cx, cy).wf(n as nat));
                }
            }
        }
        Ok(())
    }

    /// The tile the cell at column `x`, row `y` was committed to, if it was.
    pub fn collapse_value_at(&self, x: usize, y: usize) -> (r: Option<usize>)
        requires
            self.wf(),
            self.in_bounds(x as int, y as int),
        ensures
            (r is Some) == self.cell(x as int, y as int).collapsed,
            r matches Some(t) ==> t < self.tile_count_spec()
                && self.poss(x as int, y as int) == singleton(self.tile_count_spec(), t as int),
    {
        if !self.cells[y][x].collapsed {
            return None;
        }
        let ghost p = self.poss(x as int, y as int);
        let n = self.tile_count;
        assert(self.cell(x as int, y as int).wf(n as nat));
        proof {
            lemma_count_zero(p, n as int);
        }
        let mut t: usize = 0;
        while t < n
            invariant
                t <= n,
                n == self.tile_count,
                p.len() == n,
                p == self.poss(x as int, y as int),
                self.wf(),
                self.in_bounds(x as int, y as int),
                self.cell(x as int, y as int).collapsed,
                count_true(p) == 1,
                count_prefix(p, n as int) == 0 <==> forall|j: int| 0 <= j < n ==> !p[j],
                forall|j: int| 0 <= j < t ==> !p[j],
            decreases n - t,
        {
            if self.cells[y][x].possible_tiles[t] {
                proof {
                    lemma_count_one(p, t as int);
                }
                return Some(t);
            }
            t = t + 1;
        }
        None
    }

    /// A copy of the wave, to fall back on.
    pub fn snapshot(&self) -> (w: Wave)
        requires
            self.wf(),
        ensures
            w.wf(),
            w.same_shape(self),
            forall|x: int, y: int| w.in_bounds(x, y) ==> (#[trigger] w.poss(x, y)) == self.poss(x, y)
                && w.cell(x, y).collapsed == self.cell(x, y).collapsed,
    {
        let mut cells: Vec<Vec<SuperpositionState>> = Vec::new();
        let mut y: usize = 0;
        while y < self.height
            invariant
                self.wf(),
                y <= self.height,
                cells@.len() == y,
                forall|j: int| 0 <= j < y ==> (#[trigger] cells@[j])@.len() == self.width,
                forall|i: int, j: int| 0 <= j < y && 0 <= i < self.width ==> (#[trigger] cells@[j]@[i]).wf(self.tile_count as nat)
                    && cells@[j]@[i].possible_tiles@ == self.poss(i, j)
                    && cells@[j]@[i].collapsed == self.cell(i, j).collapsed,
            decreases self.height - y,
        {
            let mut row: Vec<SuperpositionState> = Vec::new();
            let mut x: usize = 0;
            while x < self.width
                invariant
                    self.wf(),
                    y < self.height,
                    x <= self.width,
                    row@.len() == x,
                    forall|i: int| 0 <= i < x ==> (#[trigger] row@[i]).wf(self.tile_count as nat)
                        && row@[i].possible_tiles@ == self.poss(i, y as int)
                        && row@[i].collapsed == self.cell(i, y as int).collapsed,
                decreases self.width - x,
            {
                assert(self.cell(x as int, y as int).wf(self.tile_count as nat));
                row.push(self.cells[y][x].duplicate());
                x = x + 1;
            }
            cells.push(row);
            y = y + 1;
        }
        Wave { width: self.width, height: self.height, tile_count: self.tile_count, cells }
    }
}

} // verus!

verus! {

/// A grid of fresh superposition states with the shape of `input_grid`:
/// one row per row of it, each as long as its first row, every state
/// allowing each of the `unique_tile_count` tiles.
pub fn create_superposition_grid(input_grid: &Vec<Vec<TileType>>, unique_tile_count: usize) -> (g: Vec<Vec<SuperpositionState>>)
    ensures
        g@.len() == input_grid@.len(),
        forall|y: int| 0 <= y < g@.len() ==> (#[trigger] g@[y])@.len() == input_grid@[0]@.len(),
        forall|x: int, y: int| 0 <= y < g@.len() && 0 <= x < g@[y]@.len() ==> {
            let c = #[trigger] g@[y]@[x];
            &&& c.wf(unique_tile_count as nat)
            &&& c.possible_tiles@ == Seq::new(unique_tile_count as nat, |i: int| true)
            &&& !c.collapsed
        },
{
    let rows = input_grid.len();
    let mut g: Vec<Vec<SuperpositionState>> = Vec::new();
    if rows == 0 {
        return g;
    }
    let cols = input_grid[0].len();
    let mut y: usize = 0;
    while y < rows
        invariant
            rows == input_grid@.len(),
            cols == input_grid@[0]@.len(),
            y <= rows,
            g@.len() == y,
            forall|j: int| 0 <= j < y ==> (#[trigger] g@[j])@.len() == cols,
            forall|i: int, j: int| 0 <= j < y && 0 <= i < cols ==> {
                let c = #[trigger] g@[j]@[i];
                &&& c.wf(unique_tile_count as nat)
                &&& c.possible_tiles@ == Seq::new(unique_tile_count as nat, |k: int| true)
                &&& !c.collapsed
            },
        decreases rows - y,
    {
        let mut row: Vec<SuperpositionState> = Vec::new();
        let mut x: usize = 0;
        while x < cols
            invariant
                x <= cols,
                row@.len() == x,
                forall|i: int| 0 <= i < x ==> {
                    let c = #[trigger] row@[i];
                    &&& c.wf(unique_tile_count as nat)
                    &&& c.possible_tiles@ == Seq::new(unique_tile_count as nat, |k: int| true)
                    &&& !c.collapsed
                },
            decreases cols - x,
        {
            row.push(SuperpositionState::new(unique_tile_count));
            x = x + 1;
        }
        g.push(row);
        y = y + 1;
    }
    g
}

} // verus!
