use vstd::prelude::*;
use crate::adjacency::{lemma_observed_symmetric, observed, supported, AdjacencyModel};
use crate::catalog::{covers, occurs};
use crate::propagate::{
    all_good, cell_good, contradicted, no_empty, lemma_good_same_possibilities, lemma_others_settled, link_ok, propagate,
    propagate_all,
};
use crate::tile::{grid_view, in_grid, step, Direction, TileType, WfcError};
use crate::wave::{subset_of, count_true, lemma_count_full, lemma_count_one, lemma_count_zero, singleton, Wave};

verus! {

/// Where a solve stands.
#[derive(Clone, Copy, Debug, PartialEq, Eq, Structural)]
pub enum SolveStatus {
    Running,
    Solved,
    Failed,
}

/// How a cell's tile is drawn among its remaining possibilities.
#[derive(Clone, Copy, Debug, PartialEq, Eq, Structural)]
pub enum ChoiceStrategy {
    /// Every possible tile is equally likely.
    Uniform,
    /// Each possible tile weighs as often as it occurred in the sample.
    FrequencyWeighted,
}

/// The wave as it was before a cell was committed to a tile.
struct Checkpoint {
    wave: Wave,
    x: usize,
    y: usize,
    tile: usize,
}

/// In a settled wave whose cells at column `x`, row `y` and its neighbour
/// towards `d` hold one tile each, `a` and `b`, the model allows `b` next to
/// `a` in that direction.
pub proof fn lemma_settled_neighbours_allowed(
    w: Wave,
    m: AdjacencyModel,
    x: int,
    y: int,
    d: Direction,
    a: int,
    b: int,
)
    requires
        w.wf(),
        all_good(w, m),
        w.in_bounds(x, y),
        w.in_bounds(step(x, y, d).0, step(x, y, d).1),
        0 <= a < w.tile_count_spec(),
        0 <= b < w.tile_count_spec(),
        w.poss(x, y) == singleton(w.tile_count_spec(), a),
        w.poss(step(x, y, d).0, step(x, y, d).1) == singleton(w.tile_count_spec(), b),
    ensures
        m.allows_spec(a, d, b),
{
    assert(cell_good(w, m, x, y));
    assert(link_ok(w, m, x, y, d));
    assert(w.poss(step(x, y, d).0, step(x, y, d).1)[b]);
    assert(supported(m, w.poss(x, y), d, b));
    let a2 = choose|a2: int| 0 <= a2 < w.poss(x, y).len() && w.poss(x, y)[a2] && #[trigger] m.allows_spec(a2, d, b);
    assert(a2 == a);
}

/// Between `before` and `after` the open cell at column `x`, row `y` was
/// committed to the tile `t`, which it still allowed.
pub open spec fn commits(before: Wave, after: Wave, x: int, y: int, t: int) -> bool {
    &&& before.in_bounds(x, y)
    &&& !before.cell(x, y).collapsed
    &&& 0 <= t < before.tile_count_spec()
    &&& before.poss(x, y)[t]
    &&& after.cell(x, y).collapsed
    &&& after.poss(x, y) == singleton(before.tile_count_spec(), t)
}

/// The model knows a single tile, which may lie next to itself in every
/// direction.
pub open spec fn single_tile_model(m: AdjacencyModel) -> bool {
    &&& m.tile_count_spec() == 1
    &&& forall|d: Direction| #[trigger] m.allows_spec(0, d, 0)
}

/// Every cell of the wave still allows every tile.
pub open spec fn all_open(w: Wave) -> bool {
    forall|x: int, y: int| w.in_bounds(x, y) ==> #[trigger] w.poss(x, y) == Seq::new(w.tile_count_spec(), |i: int| true)
}

/// Under a single-tile model a wave whose cells all still allow that tile
/// is settled and has no empty cell.
proof fn lemma_single_tile_settled(w: Wave, m: AdjacencyModel)
    requires
        w.wf(),
        single_tile_model(m),
        w.tile_count_spec() == 1,
        all_open(w),
    ensures
        all_good(w, m),
        no_empty(w),
{
    assert forall|x: int, y: int| w.in_bounds(x, y) implies #[trigger] cell_good(w, m, x, y) by {
        assert forall|d: Direction| #[trigger] link_ok(w, m, x, y, d) by {
            assert(m.allows_spec(0, d, 0));
            assert(w.poss(x, y)[0]);
        }
    }
    assert forall|x: int, y: int| w.in_bounds(x, y) implies count_true(#[trigger] w.poss(x, y)) > 0 by {
        lemma_count_full(w.poss(x, y), 1);
    }
}

/// The next state of the solver's pseudo-random generator and the number it
/// yields; the same state always gives the same number.
fn next_random(state: u64) -> (u64, u64) {
    let next = state.wrapping_add(0x9E37_79B9_7F4A_7C15);
    let mut z = next;
    z = (z ^ (z >> 30)).wrapping_mul(0xBF58_476D_1CE4_E5B9);
    z = (z ^ (z >> 27)).wrapping_mul(0x94D0_49BB_1331_11EB);
    (next, z ^ (z >> 31))
}

/// What tile `t` weighs in a draw: its occurrence count, or 1 for all alike.
pub open spec fn tile_weight(m: AdjacencyModel, t: int, weighted: bool) -> u64 {
    if weighted { m.counts_spec()[t] as u64 } else { 1 }
}

/// `a + b`, or the largest `u64` where that does not fit.
pub open spec fn sat_add(a: u64, b: u64) -> u64 {
    if a + b > u64::MAX { u64::MAX } else { (a + b) as u64 }
}

/// The weight of the tiles still possible in `p` among the first `k`.
pub open spec fn cum_weight(m: AdjacencyModel, p: Seq<bool>, k: int, weighted: bool) -> u64
    decreases k,
{
    if k <= 0 {
        0
    } else if p[k - 1] {
        sat_add(cum_weight(m, p, k - 1, weighted), tile_weight(m, k - 1, weighted))
    } else {
        cum_weight(m, p, k - 1, weighted)
    }
}

/// Picks a tile still possible in `p`, driven by the random number `r`:
/// with `W` the total weight of the possible tiles (each its occurrence
/// count, or 1 where `weighted` is false), the first possible tile whose
/// running weight exceeds `r % W`; the first possible tile where `W` is 0.
fn choose_weighted(model: &AdjacencyModel, p: &Vec<bool>, r: u64, weighted: bool) -> (t: usize)
    requires
        model.wf(),
        p@.len() == model.tile_count_spec(),
        count_true(p@) > 0,
    ensures
        t < p@.len(),
        p@[t as int],
        cum_weight(*model, p@, p@.len() as int, weighted) == 0 ==> forall|j: int| 0 <= j < t ==> !p@[j],
        cum_weight(*model, p@, p@.len() as int, weighted) > 0 ==> {
            let target = r % cum_weight(*model, p@, p@.len() as int, weighted);
            &&& target < cum_weight(*model, p@, t + 1, weighted)
            &&& forall|j: int| 0 <= j < t && p@[j] ==> target >= #[trigger] cum_weight(*model, p@, j + 1, weighted)
        },
{
    let n = p.len();
    let mut total: u64 = 0;
    let mut first: usize = n;
    let mut i: usize = 0;
    while i < n
        invariant
            model.wf(),
            n == p@.len(),
            n == model.tile_count_spec(),
            i <= n,
            total == cum_weight(*model, p@, i as int, weighted),
            first == n || (first < n && p@[first as int]),
            first < n ==> forall|j: int| 0 <= j < first ==> !p@[j],
            first == n ==> forall|j: int| 0 <= j < i ==> !p@[j],
        decreases n - i,
    {
        if p[i] {
            let weight: u64 = if weighted { model.frequency(i) as u64 } else { 1 };
            total = total.saturating_add(weight);
            if first == n {
                first = i;
            }
        }
        i = i + 1;
    }
    proof {
        lemma_count_zero(p@, n as int);
    }
    if total == 0 {
        return first;
    }
    let target = r % total;
    let mut acc: u64 = 0;
    let mut k: usize = 0;
    while k < n
        invariant
            model.wf(),
            n == p@.len(),
            n == model.tile_count_spec(),
            k <= n,
            total == cum_weight(*model, p@, n as int, weighted),
            total > 0,
            target == r % total,
            target < total,
            acc == cum_weight(*model, p@, k as int, weighted),
            target >= acc,
            forall|j: int| 0 <= j < k && p@[j] ==> target >= #[trigger] cum_weight(*model, p@, j + 1, weighted),
        decreases n - k,
    {
        if p[k] {
            let weight: u64 = if weighted { model.frequency(k) as u64 } else { 1 };
            acc = acc.saturating_add(weight);
            if target < acc {
                return k;
            }
        }
        k = k + 1;
    }
    first
}

/// The cell to commit next: among the cells not yet committed, the one with
/// the fewest possibilities, the first in row-major order on a tie.
fn select_cell(wave: &Wave) -> (r: Option<(usize, usize)>)
    requires
        wave.wf(),
    ensures
        (r is None) <==> wave.all_collapsed(),
        r matches Some(c) ==> wave.in_bounds(c.0 as int, c.1 as int) && !wave.cell(c.0 as int, c.1 as int).collapsed
            && (forall|x: int, y: int| wave.in_bounds(x, y) && !(#[trigger] wave.cell(x, y)).collapsed
                ==> count_true(wave.poss(c.0 as int, c.1 as int)) <= count_true(wave.poss(x, y)))
            && (forall|x: int, y: int| wave.in_bounds(x, y) && !(#[trigger] wave.cell(x, y)).collapsed
                && (y < c.1 || (y == c.1 && x < c.0)) ==> count_true(wave.poss(c.0 as int, c.1 as int))
                < count_true(wave.poss(x, y))),
{
    let width = wave.width();
    let height = wave.height();
    let mut best: Option<(usize, usize)> = None;
    let mut best_entropy: usize = 0;
    let mut y: usize = 0;
    while y < height
        invariant
            wave.wf(),
            width == wave.width_spec(),
            height == wave.height_spec(),
            y <= height,
            best is None ==> forall|cx: int, cy: int| 0 <= cy < y && 0 <= cx < width ==> (#[trigger] wave.cell(cx, cy)).collapsed,
            best matches Some(c) ==> wave.in_bounds(c.0 as int, c.1 as int) && c.1 < y
                && !wave.cell(c.0 as int, c.1 as int).collapsed
                && best_entropy == count_true(wave.poss(c.0 as int, c.1 as int))
                && (forall|cx: int, cy: int| 0 <= cy < y && 0 <= cx < width && !(#[trigger] wave.cell(cx, cy)).collapsed
                    ==> best_entropy <= count_true(wave.poss(cx, cy)))
                && (forall|cx: int, cy: int| 0 <= cy < y && 0 <= cx < width && !(#[trigger] wave.cell(cx, cy)).collapsed
                    && (cy < c.1 || (cy == c.1 && cx < c.0)) ==> best_entropy < count_true(wave.poss(cx, cy))),
        decreases height - y,
    {
        let mut x: usize = 0;
        while x < width
            invariant
                wave.wf(),
                width == wave.width_spec(),
                height == wave.height_spec(),
                y < height,
                x <= width,
                best is None ==> forall|cx: int, cy: int| ((0 <= cy < y && 0 <= cx < width) || (cy == y && 0 <= cx < x))
                    ==> (#[trigger] wave.cell(cx, cy)).collapsed,
                best matches Some(c) ==> wave.in_bounds(c.0 as int, c.1 as int)
                    && (c.1 < y || (c.1 == y && c.0 < x))
                    && !wave.cell(c.0 as int, c.1 as int).collapsed
                    && best_entropy == count_true(wave.poss(c.0 as int, c.1 as int))
                    && (forall|cx: int, cy: int| ((0 <= cy < y && 0 <= cx < width) || (cy == y && 0 <= cx < x))
                        && !(#[trigger] wave.cell(cx, cy)).collapsed ==> best_entropy <= count_true(wave.poss(cx, cy)))
                    && (forall|cx: int, cy: int| ((0 <= cy < y && 0 <= cx < width) || (cy == y && 0 <= cx < x))
                        && !(#[trigger] wave.cell(cx, cy)).collapsed && (cy < c.1 || (cy == c.1 && cx < c.0))
                        ==> best_entropy < count_true(wave.poss(cx, cy))),
            decreases width - x,
        {
            if !wave.is_collapsed(x, y) {
                let e = wave.entropy_at(x, y);
                let better = match best {
                    None => true,
                    Some(_) => e < best_entropy,
                };
                if better {
                    best = Some((x, y));
                    best_entropy = e;
                }
            }
            x = x + 1;
        }
        y = y + 1;
    }
    best
}

/// Reads the committed tile of every cell, row by row.
fn read_output(wave: &Wave) -> (g: Vec<Vec<usize>>)
    requires
        wave.wf(),
        wave.all_collapsed(),
    ensures
        g@.len() == wave.height_spec(),
        forall|y: int| 0 <= y < g@.len() ==> (#[trigger] g@[y])@.len() == wave.width_spec(),
        forall|x: int, y: int| wave.in_bounds(x, y) ==> (#[trigger] g@[y]@[x]) < wave.tile_count_spec()
            && wave.poss(x, y) == singleton(wave.tile_count_spec(), g@[y]@[x] as int),
{
    let width = wave.width();
    let height = wave.height();
    let mut g: Vec<Vec<usize>> = Vec::new();
    let mut y: usize = 0;
    while y < height
        invariant
            wave.wf(),
            wave.all_collapsed(),
            width == wave.width_spec(),
            height == wave.height_spec(),
            y <= height,
            g@.len() == y,
            forall|j: int| 0 <= j < y ==> (#[trigger] g@[j])@.len() == width,
            forall|i: int, j: int| 0 <= j < y && 0 <= i < width ==> (#[trigger] g@[j]@[i]) < wave.tile_count_spec()
                && wave.poss(i, j) == singleton(wave.tile_count_spec(), g@[j]@[i] as int),
        decreases height - y,
    {
        let mut row: Vec<usize> = Vec::new();
        let mut x: usize = 0;
        while x < width
            invariant
                wave.wf(),
                wave.all_collapsed(),
                width == wave.width_spec(),
                height == wave.height_spec(),
                y < height,
                x <= width,
                row@.len() == x,
                forall|i: int| 0 <= i < x ==> (#[trigger] row@[i]) < wave.tile_count_spec()
                    && wave.poss(i, y as int) == singleton(wave.tile_count_spec(), row@[i] as int),
            decreases width - x,
        {
            assert(wave.cell(x as int, y as int).collapsed);
            let t = wave.collapse_value_at(x, y).unwrap();
            row.push(t);
            x = x + 1;
        }
        g.push(row);
        y = y + 1;
    }
    g
}

} // verus!

verus! {

/// The solver: commits the most certain open cell to a weighted random
/// tile, propagates, and on a contradiction falls back to the wave before
/// the latest commitment with that choice ruled out, within a retry budget.
pub struct Collapser {
    model: AdjacencyModel,
    wave: Wave,
    rng: u64,
    status: SolveStatus,
    strategy: ChoiceStrategy,
    cancelled: bool,
    checkpoints: Vec<Checkpoint>,
    retries_left: usize,
    budget: usize,
}

impl Collapser {
    pub closed spec fn model_spec(&self) -> AdjacencyModel {
        self.model
    }

    pub closed spec fn wave_spec(&self) -> Wave {
        self.wave
    }

    pub closed spec fn status_spec(&self) -> SolveStatus {
        self.status
    }

    pub closed spec fn retries_spec(&self) -> nat {
        self.retries_left as nat
    }

    pub closed spec fn cancelled_spec(&self) -> bool {
        self.cancelled
    }

    /// The number of fallbacks the solver was given.
    pub closed spec fn budget_spec(&self) -> nat {
        self.budget as nat
    }

    /// The number of checkpoints left to fall back on.
    pub closed spec fn checkpoint_count(&self) -> nat {
        self.checkpoints@.len()
    }

    /// Every checkpoint is a settled wave of the same shape, and names a
    /// cell on it and a tile.
    pub closed spec fn checkpoints_ok(&self) -> bool {
        forall|i: int| 0 <= i < self.checkpoints@.len() ==> {
            let c = #[trigger] self.checkpoints@[i];
            &&& c.wave.wf()
            &&& c.wave.same_shape(&self.wave)
            &&& all_good(c.wave, self.model)
            &&& c.wave.in_bounds(c.x as int, c.y as int)
        }
    }

    /// A running solve holds a settled wave; a solved one a settled wave
    /// whose every cell is committed.
    pub open spec fn inv(&self) -> bool {
        &&& self.wave_spec().wf()
        &&& self.model_spec().wf()
        &&& self.model_spec().tile_count_spec() == self.wave_spec().tile_count_spec()
        &&& self.checkpoints_ok()
        &&& self.status_spec() == SolveStatus::Running ==> all_good(self.wave_spec(), self.model_spec())
        &&& self.status_spec() == SolveStatus::Solved ==> all_good(self.wave_spec(), self.model_spec())
            && self.wave_spec().all_collapsed()
    }

    /// A solver for a `width` by `height` output, with the random seed
    /// `seed` and room for `max_retries` fallbacks. It fails at once where
    /// settling the fresh wave already empties a cell.
    pub fn new(model: AdjacencyModel, width: usize, height: usize, seed: u64, max_retries: usize) -> (c: Collapser)
        requires
            model.wf(),
        ensures
            c.inv(),
            c.model_spec() == model,
            c.wave_spec().width_spec() == width,
            c.wave_spec().height_spec() == height,
            c.retries_spec() == max_retries,
            c.budget_spec() == max_retries,
            c.checkpoint_count() == 0,
            c.status_spec() == SolveStatus::Failed ==> contradicted(c.wave_spec(), c.model_spec()),
            c.strategy_spec() == ChoiceStrategy::FrequencyWeighted,
            !c.cancelled_spec(),
            c.status_spec() == SolveStatus::Running || c.status_spec() == SolveStatus::Failed,
            (width == 0 || height == 0) ==> c.status_spec() == SolveStatus::Running,
            single_tile_model(model) ==> c.status_spec() == SolveStatus::Running && all_open(c.wave_spec()),
    {
        let mut wave = Wave::new(width, height, model.tile_count());
        proof {
            if width == 0 || height == 0 {
                assert(all_good(wave, model));
                assert(no_empty(wave));
            }
            if single_tile_model(model) {
                lemma_single_tile_settled(wave, model);
            }
        }
        let res = propagate_all(&mut wave, &model);
        let status = match res {
            Ok(()) => SolveStatus::Running,
            Err(_) => SolveStatus::Failed,
        };
        Collapser {
            model,
            wave,
            rng: seed,
            status,
            strategy: ChoiceStrategy::FrequencyWeighted,
            cancelled: false,
            checkpoints: Vec::new(),
            retries_left: max_retries,
            budget: max_retries,
        }
    }

    pub fn status(&self) -> (s: SolveStatus)
        ensures
            s == self.status_spec(),
    {
        self.status
    }

    /// How the solver draws a tile; frequency-weighted unless set otherwise.
    pub closed spec fn strategy_spec(&self) -> ChoiceStrategy {
        self.strategy
    }

    /// Chooses how the solver draws a tile for each cell it commits.
    pub fn set_strategy(&mut self, strategy: ChoiceStrategy)
        requires
            old(self).inv(),
        ensures
            final(self).inv(),
            final(self).strategy_spec() == strategy,
            final(self).status_spec() == old(self).status_spec(),
            final(self).wave_spec() == old(self).wave_spec(),
            final(self).model_spec() == old(self).model_spec(),
            final(self).retries_spec() == old(self).retries_spec(),
            final(self).cancelled_spec() == old(self).cancelled_spec(),
    {
        self.strategy = strategy;
    }

    /// Asks the solver to stop: the next step fails the solve.
    pub fn cancel(&mut self)
        requires
            old(self).inv(),
        ensures
            final(self).inv(),
            final(self).cancelled_spec(),
            final(self).status_spec() == old(self).status_spec(),
            final(self).wave_spec() == old(self).wave_spec(),
            final(self).model_spec() == old(self).model_spec(),
            final(self).retries_spec() == old(self).retries_spec(),
    {
        self.cancelled = true;
    }

    /// Falls back to the latest checkpoint with its choice ruled out, and
    /// then to earlier ones, while retries are left; fails the solve when
    /// none is left.
    fn recover(&mut self)
        requires
            old(self).wave_spec().wf(),
            old(self).model_spec().wf(),
            old(self).model_spec().tile_count_spec() == old(self).wave_spec().tile_count_spec(),
            old(self).checkpoints_ok(),
        ensures
            final(self).inv(),
            final(self).status_spec() == SolveStatus::Running || final(self).status_spec() == SolveStatus::Failed,
            final(self).status_spec() == SolveStatus::Running ==> final(self).retries_spec() < old(self).retries_spec(),
            final(self).status_spec() == SolveStatus::Failed ==> final(self).retries_spec() == 0
                || final(self).checkpoint_count() == 0,
            final(self).retries_spec() <= old(self).retries_spec(),
            final(self).model_spec() == old(self).model_spec(),
            final(self).cancelled_spec() == old(self).cancelled_spec(),
            final(self).budget_spec() == old(self).budget_spec(),
            final(self).wave_spec().same_shape(&old(self).wave_spec()),
    {
        let ghost start = *self;
        while self.checkpoints.len() > 0 && self.retries_left > 0
            invariant
                self.wave.wf(),
                self.model.wf(),
                self.model.tile_count_spec() == self.wave.tile_count_spec(),
                self.checkpoints_ok(),
                start == *old(self),
                self.retries_left <= start.retries_left,
                self.model == start.model,
                self.cancelled == start.cancelled,
                self.budget == start.budget,
                self.wave.same_shape(&start.wave),
            decreases self.checkpoints.len(),
        {
            let ghost before = self.checkpoints@;
            let cp = self.checkpoints.pop().unwrap();
            assert(before[before.len() - 1] == cp);
            self.retries_left = self.retries_left - 1;
            proof {
                assert forall|i: int| 0 <= i < self.checkpoints@.len() implies {
                    let c = #[trigger] self.checkpoints@[i];
                    &&& c.wave.wf()
                    &&& c.wave.same_shape(&cp.wave)
                    &&& all_good(c.wave, self.model)
                    &&& c.wave.in_bounds(c.x as int, c.y as int)
                } by {
                    assert(self.checkpoints@[i] == before[i]);
                }
            }
            self.wave = cp.wave;
            let n = self.wave.tile_count();
            let mut allowed: Vec<bool> = Vec::new();
            let mut i: usize = 0;
            while i < n
                invariant
                    i <= n,
                    allowed@.len() == i,
                decreases n - i,
            {
                allowed.push(i != cp.tile);
                i = i + 1;
            }
            let ghost settled = self.wave;
            match self.wave.restrict(cp.x, cp.y, &allowed) {
                Ok(_) => {
                    proof {
                        lemma_others_settled(settled, self.wave, self.model, cp.x as int, cp.y as int);
                    }
                    match propagate(&mut self.wave, &self.model, cp.x, cp.y) {
                        Ok(()) => {
                            self.status = SolveStatus::Running;
                            return;
                        },
                        Err(_) => {},
                    }
                },
                Err(_) => {},
            }
        }
        self.status = SolveStatus::Failed;
    }

    /// One step of the solve. A running solve fails if it was cancelled, is
    /// solved if every cell is committed, and otherwise commits the most
    /// certain open cell and propagates, falling back on a contradiction.
    pub fn step(&mut self) -> (s: SolveStatus)
        requires
            old(self).inv(),
        ensures
            final(self).inv(),
            s == final(self).status_spec(),
            final(self).model_spec() == old(self).model_spec(),
            final(self).cancelled_spec() == old(self).cancelled_spec(),
            final(self).wave_spec().same_shape(&old(self).wave_spec()),
            final(self).retries_spec() <= old(self).retries_spec(),
            final(self).budget_spec() == old(self).budget_spec(),
            old(self).status_spec() != SolveStatus::Running ==> *final(self) == *old(self),
            old(self).status_spec() == SolveStatus::Running && final(self).status_spec() == SolveStatus::Failed
                ==> old(self).cancelled_spec() || final(self).retries_spec() == 0 || final(self).checkpoint_count() == 0,
            old(self).status_spec() == SolveStatus::Running && final(self).status_spec() == SolveStatus::Running
                && final(self).retries_spec() == old(self).retries_spec() ==> exists|x: int, y: int, t: int|
                #[trigger] commits(old(self).wave_spec(), final(self).wave_spec(), x, y, t),
            old(self).status_spec() == SolveStatus::Running && old(self).cancelled_spec()
                ==> final(self).status_spec() == SolveStatus::Failed,
            old(self).status_spec() == SolveStatus::Running && !old(self).cancelled_spec()
                && old(self).wave_spec().all_collapsed() ==> final(self).status_spec() == SolveStatus::Solved,
            old(self).status_spec() == SolveStatus::Running && final(self).status_spec() == SolveStatus::Running
                ==> final(self).retries_spec() < old(self).retries_spec()
                || final(self).wave_spec().measure() < old(self).wave_spec().measure(),
            old(self).status_spec() == SolveStatus::Running && !old(self).cancelled_spec()
                && single_tile_model(old(self).model_spec()) && all_open(old(self).wave_spec())
                ==> final(self).status_spec() != SolveStatus::Failed && all_open(final(self).wave_spec()),
    {
        let ghost single = single_tile_model(self.model) && all_open(self.wave);
        let ghost w0 = self.wave;
        if self.status != SolveStatus::Running {
            return self.status;
        }
        if self.cancelled {
            self.status = SolveStatus::Failed;
            return self.status;
        }
        match select_cell(&self.wave) {
            None => {
                self.status = SolveStatus::Solved;
                self.status
            },
            Some(c) => {
                let (x, y) = c;
                let p = self.wave.possibilities_at(x, y);
                let e = self.wave.entropy_at(x, y);
                proof {
                    if single {
                        lemma_count_full(self.wave.poss(x as int, y as int), 1);
                    }
                }
                if e == 0 {
                    self.recover();
                    return self.status;
                }
                let (next, r) = next_random(self.rng);
                self.rng = next;
                let weighted = match self.strategy {
                    ChoiceStrategy::Uniform => false,
                    ChoiceStrategy::FrequencyWeighted => true,
                };
                let tile = choose_weighted(&self.model, &p, r, weighted);
                let snapshot = self.wave.snapshot();
                proof {
                    lemma_good_same_possibilities(self.wave, snapshot, self.model);
                }
                let ghost settled = self.wave;
                let forced = self.wave.force(x, y, tile);
                proof {
                    lemma_others_settled(settled, self.wave, self.model, x as int, y as int);
                    if single {
                        assert(singleton(1, tile as int) =~= Seq::new(1, |i: int| true));
                        assert forall|cx: int, cy: int| self.wave.in_bounds(cx, cy) implies
                            #[trigger] self.wave.poss(cx, cy) == Seq::new(self.wave.tile_count_spec(), |i: int| true) by {
                            if (cx, cy) != (x as int, y as int) {
                                assert(self.wave.cell(cx, cy) == settled.cell(cx, cy));
                            }
                        }
                        lemma_single_tile_settled(self.wave, self.model);
                    }
                }
                let res = propagate(&mut self.wave, &self.model, x, y);
                let ghost before = self.checkpoints@;
                self.checkpoints.push(Checkpoint { wave: snapshot, x, y, tile });
                proof {
                    assert forall|i: int| 0 <= i < self.checkpoints@.len() implies {
                        let c = #[trigger] self.checkpoints@[i];
                        &&& c.wave.wf()
                        &&& c.wave.same_shape(&self.wave)
                        &&& all_good(c.wave, self.model)
                        &&& c.wave.in_bounds(c.x as int, c.y as int)
                    } by {
                        if i < before.len() {
                            assert(self.checkpoints@[i] == before[i]);
                        }
                    }
                }
                match res {
                    Ok(()) => {
                        proof {
                            let n = self.wave.tile_count_spec();
                            let q = self.wave.poss(x as int, y as int);
                            assert(self.wave.cell(x as int, y as int).collapsed);
                            assert(self.wave.cell(x as int, y as int).wf(n));
                            assert(subset_of(q, singleton(n, tile as int)));
                            lemma_count_zero(q, n as int);
                            let i = choose|i: int| 0 <= i < n && q[i];
                            assert(singleton(n, tile as int)[i]);
                            lemma_count_one(q, tile as int);
                            assert(commits(w0, self.wave, x as int, y as int, tile as int));
                            assert(w0 == old(self).wave_spec());
                            assert(self.wave == self.wave_spec());
                            assert(commits(old(self).wave_spec(), self.wave_spec(), x as int, y as int, tile as int));
                            assert(exists|x: int, y: int, t: int| #[trigger] commits(old(self).wave_spec(), self.wave_spec(), x, y, t));
                        }
                        SolveStatus::Running
                    },
                    Err(_) => {
                        self.recover();
                        self.status
                    },
                }
            },
        }
    }

    /// Steps until the solve is no longer running. Returns the committed
    /// tile of every cell, as rows of columns, when it is solved, and
    /// `SolveFailed` otherwise.
    pub fn run(&mut self) -> (r: Result<Vec<Vec<usize>>, WfcError>)
        requires
            old(self).inv(),
        ensures
            final(self).inv(),
            final(self).model_spec() == old(self).model_spec(),
            final(self).wave_spec().same_shape(&old(self).wave_spec()),
            final(self).status_spec() != SolveStatus::Running,
            (r is Ok) <==> final(self).status_spec() == SolveStatus::Solved,
            (r is Err) ==> r == Err::<Vec<Vec<usize>>, WfcError>(WfcError::SolveFailed),
            final(self).budget_spec() == old(self).budget_spec(),
            old(self).status_spec() == SolveStatus::Failed ==> final(self).wave_spec() == old(self).wave_spec(),
            (r is Err) ==> final(self).status_spec() == SolveStatus::Failed && (old(self).status_spec() == SolveStatus::Failed
                || old(self).cancelled_spec() || final(self).retries_spec() == 0 || final(self).checkpoint_count() == 0),
            old(self).status_spec() == SolveStatus::Running && !old(self).cancelled_spec()
                && (old(self).wave_spec().width_spec() == 0 || old(self).wave_spec().height_spec() == 0) ==> r is Ok,
            old(self).status_spec() == SolveStatus::Running && !old(self).cancelled_spec()
                && single_tile_model(old(self).model_spec()) && all_open(old(self).wave_spec()) ==> r is Ok,
            r matches Ok(g) ==> solved_grid(g@.map_values(|row: Vec<usize>| row@), final(self).wave_spec(), final(self).model_spec()),
    {
        let ghost start = *self;
        let ghost trivial = self.status == SolveStatus::Running && !self.cancelled
            && (self.wave.width_spec() == 0 || self.wave.height_spec() == 0);
        let ghost single = self.status == SolveStatus::Running && !self.cancelled && single_tile_model(self.model)
            && all_open(self.wave);
        while self.status == SolveStatus::Running
            invariant
                self.inv(),
                self.model == start.model,
                self.cancelled == start.cancelled,
                self.wave.same_shape(&start.wave),
                trivial == (start.status == SolveStatus::Running && !start.cancelled
                    && (start.wave.width_spec() == 0 || start.wave.height_spec() == 0)),
                trivial ==> self.status != SolveStatus::Failed,
                single == (start.status == SolveStatus::Running && !start.cancelled && single_tile_model(start.model)
                    && all_open(start.wave)),
                single ==> self.status != SolveStatus::Failed && all_open(self.wave),
                self.budget == start.budget,
                self.status == SolveStatus::Failed ==> start.status == SolveStatus::Failed || start.cancelled
                    || self.retries_left == 0 || self.checkpoints@.len() == 0,
                start.status == SolveStatus::Failed ==> self.status == SolveStatus::Failed && self.wave == start.wave,
            ensures
                self.inv(),
                self.model == start.model,
                self.wave.same_shape(&start.wave),
                self.status != SolveStatus::Running,
                trivial ==> self.status != SolveStatus::Failed,
                single ==> self.status != SolveStatus::Failed,
                self.budget == start.budget,
                self.status == SolveStatus::Failed ==> start.status == SolveStatus::Failed || start.cancelled
                    || self.retries_left == 0 || self.checkpoints@.len() == 0,
                start.status == SolveStatus::Failed ==> self.status == SolveStatus::Failed && self.wave == start.wave,
            decreases self.retries_spec(), self.wave_spec().measure(),
        {
            proof {
                if trivial {
                    assert(self.wave.all_collapsed());
                }
            }
            let s = self.step();
            if s != SolveStatus::Running {
                break;
            }
        }
        if self.status != SolveStatus::Solved {
            return Err(WfcError::SolveFailed);
        }
        let g = read_output(&self.wave);
        proof {
            let w = self.wave;
            let gv = g@.map_values(|row: Vec<usize>| row@);
            assert forall|x: int, y: int, d: Direction|
                w.in_bounds(x, y) && w.in_bounds(step(x, y, d).0, step(x, y, d).1)
                    implies #[trigger] self.model.allows_spec(gv[y][x] as int, d, gv[step(x, y, d).1][step(x, y, d).0] as int) by {
                let (nx, ny) = step(x, y, d);
                assert(g@[y]@[x] < w.tile_count_spec());
                assert(g@[ny]@[nx] < w.tile_count_spec());
                lemma_settled_neighbours_allowed(w, self.model, x, y, d, g@[y]@[x] as int, g@[ny]@[nx] as int);
            }
            assert forall|x: int, y: int| w.in_bounds(x, y) implies (#[trigger] gv[y][x]) < w.tile_count_spec()
                && w.poss(x, y) == singleton(w.tile_count_spec(), gv[y][x] as int) by {
                assert(g@[y]@[x] < w.tile_count_spec());
            }
        }
        Ok(g)
    }
}

/// `g` is the output of the solved wave `w`: one row per row of the wave,
/// one entry per column, each the single tile left at its cell, and every
/// two neighbours allowed next to each other by the model `m`.
pub open spec fn solved_grid(g: Seq<Seq<usize>>, w: Wave, m: AdjacencyModel) -> bool {
    &&& g.len() == w.height_spec()
    &&& forall|y: int| 0 <= y < g.len() ==> (#[trigger] g[y]).len() == w.width_spec()
    &&& forall|x: int, y: int| w.in_bounds(x, y) ==> (#[trigger] g[y][x]) < w.tile_count_spec()
        && w.poss(x, y) == singleton(w.tile_count_spec(), g[y][x] as int)
    &&& forall|x: int, y: int, d: Direction| w.in_bounds(x, y) && w.in_bounds(step(x, y, d).0, step(x, y, d).1)
        ==> #[trigger] m.allows_spec(g[y][x] as int, d, g[step(x, y, d).1][step(x, y, d).0] as int)
}

} // verus!

verus! {

/// Tile type `t2` lies towards `d` from tile type `t1` somewhere in the
/// sample grid `g`.
pub open spec fn adjacent_in_sample(g: Seq<Seq<TileType>>, t1: TileType, d: Direction, t2: TileType) -> bool {
    exists|x: int, y: int|
        #[trigger] in_grid(g, x, y) && in_grid(g, step(x, y, d).0, step(x, y, d).1) && g[y][x] == t1
            && g[step(x, y, d).1][step(x, y, d).0] == t2
}

/// Every neighbour fact that grid `o` shows was also seen in the sample `g`:
/// a model learned from `o` allows nothing a model learned from `g` does not.
pub open spec fn facts_within(o: Seq<Seq<TileType>>, g: Seq<Seq<TileType>>) -> bool {
    forall|t1: TileType, d: Direction, t2: TileType|
        #[trigger] adjacent_in_sample(o, t1, d, t2) ==> adjacent_in_sample(g, t1, d, t2)
}

/// Every cell of the sample holds `t`, some cell has a neighbour to its
/// right and some cell one below it.
pub open spec fn uniform_sample(g: Seq<Seq<TileType>>, t: TileType) -> bool {
    &&& forall|x: int, y: int| #[trigger] in_grid(g, x, y) ==> g[y][x] == t
    &&& exists|x: int, y: int| #[trigger] in_grid(g, x, y) && in_grid(g, x + 1, y)
    &&& exists|x: int, y: int| #[trigger] in_grid(g, x, y) && in_grid(g, x, y + 1)
}

/// A uniform sample teaches a model of one tile that may lie next to itself
/// in every direction.
proof fn lemma_uniform_sample_single_tile(g: Seq<Seq<TileType>>, cat: Seq<TileType>, m: AdjacencyModel, t: TileType)
    requires
        uniform_sample(g, t),
        cat.no_duplicates(),
        covers(cat, g),
        forall|i: int| 0 <= i < cat.len() ==> #[trigger] occurs(g, cat[i]),
        m.learned_from(g, cat),
    ensures
        single_tile_model(m),
{
    let (x, y) = choose|x: int, y: int| #[trigger] in_grid(g, x, y) && in_grid(g, x + 1, y);
    let (vx, vy) = choose|x: int, y: int| #[trigger] in_grid(g, x, y) && in_grid(g, x, y + 1);
    assert(in_grid(g, x, y));
    assert(cat.contains(g[y][x]));
    if cat.len() > 1 {
        assert(occurs(g, cat[0]));
        assert(occurs(g, cat[1]));
        let (x0, y0) = choose|ax: int, ay: int| #[trigger] in_grid(g, ax, ay) && g[ay][ax] == cat[0];
        let (x1, y1) = choose|ax: int, ay: int| #[trigger] in_grid(g, ax, ay) && g[ay][ax] == cat[1];
        assert(cat[0] == cat[1]);
    }
    assert(occurs(g, cat[0]));
    let (x0, y0) = choose|ax: int, ay: int| #[trigger] in_grid(g, ax, ay) && g[ay][ax] == cat[0];
    assert(cat[0] == t);
    assert(in_grid(g, x + 1, y));
    assert(in_grid(g, vx, vy + 1));
    assert(observed(g, cat, 0, Direction::Right, 0));
    assert(in_grid(g, vx, vy));
    assert(observed(g, cat, 0, Direction::Down, 0));
    lemma_observed_symmetric(g, cat, 0, Direction::Right, 0);
    lemma_observed_symmetric(g, cat, 0, Direction::Down, 0);
    assert forall|d: Direction| #[trigger] m.allows_spec(0, d, 0) by {
        assert(m.allows_spec(0, d, 0) == observed(g, cat, 0, d, 0));
    }
}

/// The solver `c`, learned from the sample `g` through the catalog `cat`
/// for a `w` by `h` output with a budget of `k` fallbacks, has given up:
/// settling its wave met a contradiction, or it used up its fallbacks or
/// its checkpoints.
pub open spec fn gave_up(c: Collapser, g: Seq<Seq<TileType>>, cat: Seq<TileType>, w: nat, h: nat, k: nat) -> bool {
    &&& c.model_spec().learned_from(g, cat)
    &&& c.wave_spec().width_spec() == w
    &&& c.wave_spec().height_spec() == h
    &&& c.budget_spec() == k
    &&& c.status_spec() == SolveStatus::Failed
    &&& contradicted(c.wave_spec(), c.model_spec()) || c.retries_spec() == 0 || c.checkpoint_count() == 0
}

/// Generates a `width` by `height` map from a sample grid: learns the
/// catalog and the adjacency model from the sample, solves with the given
/// seed and retry budget, and resolves the result to tile types, as rows of
/// columns. Every tile of the result occurs in the sample, and every two
/// neighbours in it lie next to each other, the same way round, somewhere in
/// the sample. An empty output is solved at once, and so is any output
/// from a sample of a single tile type that has both horizontal and
/// vertical neighbours.
pub fn solve(sample: &Vec<Vec<TileType>>, width: usize, height: usize, seed: u64, max_retries: usize) -> (r: Result<
    Vec<Vec<TileType>>,
    WfcError,
>)
    ensures
        (r is Err) ==> r == Err::<Vec<Vec<TileType>>, WfcError>(WfcError::SolveFailed),
        (width == 0 || height == 0) ==> r is Ok,
        (r is Err) ==> exists|c: Collapser, cat: Seq<TileType>|
            #[trigger] gave_up(c, grid_view(sample), cat, width as nat, height as nat, max_retries as nat),
        r matches Ok(out) ==> facts_within(grid_view(&out), grid_view(sample)),
        forall|t: TileType| #[trigger] uniform_sample(grid_view(sample), t) ==> (r is Ok) && (r matches Ok(out)
            ==> forall|x: int, y: int| 0 <= x < width && 0 <= y < height ==> #[trigger] out@[y]@[x] == t),
        r matches Ok(out) ==> {
            &&& out@.len() == height
            &&& forall|y: int| 0 <= y < height ==> (#[trigger] out@[y])@.len() == width
            &&& forall|x: int, y: int| 0 <= x < width && 0 <= y < height ==> occurs(grid_view(sample), #[trigger] out@[y]@[x])
            &&& forall|x: int, y: int, d: Direction|
                0 <= x < width && 0 <= y < height && 0 <= step(x, y, d).0 < width && 0 <= step(x, y, d).1 < height
                    ==> #[trigger] adjacent_in_sample(grid_view(sample), out@[y]@[x], d, out@[step(x, y, d).1]@[step(x, y, d).0])
        },
{
    let ghost g = grid_view(sample);
    let (catalog, model) = AdjacencyModel::learn(sample);
    let ghost cat = catalog@;
    let ghost m = model;
    proof {
        if exists|t: TileType| uniform_sample(g, t) {
            let t = choose|t: TileType| uniform_sample(g, t);
            lemma_uniform_sample_single_tile(g, cat, m, t);
        }
    }
    let mut collapser = Collapser::new(model, width, height, seed, max_retries);
    let ids = match collapser.run() {
        Ok(ids) => ids,
        Err(e) => {
            proof {
                assert(gave_up(collapser, g, cat, width as nat, height as nat, max_retries as nat));
            }
            return Err(e);
        },
    };
    let ghost w = collapser.wave_spec();
    let ghost iv = ids@.map_values(|row: Vec<usize>| row@);
    assert(solved_grid(iv, w, m));
    let mut out: Vec<Vec<TileType>> = Vec::new();
    let mut y: usize = 0;
    while y < height
        invariant
            y <= height,
            w.width_spec() == width,
            w.height_spec() == height,
            w.tile_count_spec() == cat.len(),
            solved_grid(iv, w, m),
            iv == ids@.map_values(|row: Vec<usize>| row@),
            cat == catalog@,
            out@.len() == y,
            forall|j: int| 0 <= j < y ==> (#[trigger] out@[j])@.len() == width,
            forall|i: int, j: int| 0 <= i < width && 0 <= j < y ==> #[trigger] out@[j]@[i] == cat[iv[j][i] as int],
        decreases height - y,
    {
        let mut row: Vec<TileType> = Vec::new();
        let mut x: usize = 0;
        assert(iv[y as int].len() == width);
        while x < width
            invariant
                y < height,
                x <= width,
                w.width_spec() == width,
                w.height_spec() == height,
                w.tile_count_spec() == cat.len(),
                solved_grid(iv, w, m),
                iv == ids@.map_values(|row: Vec<usize>| row@),
                cat == catalog@,
                row@.len() == x,
                forall|i: int| 0 <= i < x ==> #[trigger] row@[i] == cat[iv[y as int][i] as int],
            decreases width - x,
        {
            assert(w.in_bounds(x as int, y as int));
            assert(iv[y as int][x as int] < cat.len());
            let id = ids[y][x];
            match catalog.resolve(id) {
                Ok(t) => row.push(t),
                Err(_) => return Err(WfcError::SolveFailed),
            }
            x = x + 1;
        }
        out.push(row);
        y = y + 1;
    }
    proof {
        assert forall|x: int, y: int| 0 <= x < width && 0 <= y < height implies occurs(g, #[trigger] out@[y]@[x]) by {
            assert(w.in_bounds(x, y));
            assert(iv[y][x] < cat.len());
            assert(occurs(g, cat[iv[y][x] as int]));
        }
        assert forall|x: int, y: int, d: Direction|
            0 <= x < width && 0 <= y < height && 0 <= step(x, y, d).0 < width && 0 <= step(x, y, d).1 < height
                implies #[trigger] adjacent_in_sample(g, out@[y]@[x], d, out@[step(x, y, d).1]@[step(x, y, d).0]) by {
            let (nx, ny) = step(x, y, d);
            assert(w.in_bounds(x, y) && w.in_bounds(nx, ny));
            let a = iv[y][x] as int;
            let b = iv[ny][nx] as int;
            assert(m.allows_spec(a, d, b));
            assert(observed(g, cat, a, d, b));
            let (sx, sy) = choose|sx: int, sy: int|
                #[trigger] in_grid(g, sx, sy) && in_grid(g, step(sx, sy, d).0, step(sx, sy, d).1)
                    && g[sy][sx] == cat[a] && g[step(sx, sy, d).1][step(sx, sy, d).0] == cat[b];
            assert(in_grid(g, sx, sy));
        }
        let ov = grid_view(&out);
        assert forall|t1: TileType, d: Direction, t2: TileType|
            #[trigger] adjacent_in_sample(ov, t1, d, t2) implies adjacent_in_sample(g, t1, d, t2) by {
            let (x, y) = choose|x: int, y: int|
                #[trigger] in_grid(ov, x, y) && in_grid(ov, step(x, y, d).0, step(x, y, d).1) && ov[y][x] == t1
                    && ov[step(x, y, d).1][step(x, y, d).0] == t2;
            let (nx, ny) = step(x, y, d);
            assert(in_grid(ov, nx, ny));
            assert(adjacent_in_sample(g, out@[y]@[x], d, out@[ny]@[nx]));
        }
        assert forall|t: TileType| #[trigger] uniform_sample(g, t) implies forall|x: int, y: int|
            0 <= x < width && 0 <= y < height ==> #[trigger] out@[y]@[x] == t by {
            assert forall|x: int, y: int| 0 <= x < width && 0 <= y < height implies #[trigger] out@[y]@[x] == t by {
                assert(occurs(g, out@[y]@[x]));
                let (ox, oy) = choose|ox: int, oy: int| #[trigger] in_grid(g, ox, oy) && g[oy][ox] == out@[y]@[x];
            }
        }
    }
    Ok(out)
}

} // verus!

verus! {

/// The cell at column `x`, row `y` of `w` holds tile `t` alone.
pub open spec fn committed_to(w: Wave, x: int, y: int, t: int) -> bool {
    0 <= t < w.tile_count_spec() && w.poss(x, y) == singleton(w.tile_count_spec(), t)
}

/// A solver that reached `Solved` holds exactly one tile at every cell, and
/// the model allows the tiles of every two neighbours next to each other in
/// the direction that leads from one to the other.
pub proof fn lemma_solved_state_consistent(c: Collapser, x: int, y: int, d: Direction)
    requires
        c.inv(),
        c.status_spec() == SolveStatus::Solved,
        c.wave_spec().in_bounds(x, y),
    ensures
        exists|t: int| committed_to(c.wave_spec(), x, y, t),
        forall|a: int, b: int|
            c.wave_spec().in_bounds(step(x, y, d).0, step(x, y, d).1) && #[trigger] committed_to(c.wave_spec(), x, y, a)
                && #[trigger] committed_to(c.wave_spec(), step(x, y, d).0, step(x, y, d).1, b)
                ==> c.model_spec().allows_spec(a, d, b),
{
    let w = c.wave_spec();
    let n = w.tile_count_spec();
    assert(w.cell(x, y).collapsed);
    assert(w.cell(x, y).wf(n));
    let p = w.poss(x, y);
    lemma_count_zero(p, n as int);
    let t = choose|t: int| 0 <= t < n && p[t];
    lemma_count_one(p, t);
    assert(committed_to(w, x, y, t));
    assert forall|a: int, b: int|
        w.in_bounds(step(x, y, d).0, step(x, y, d).1) && #[trigger] committed_to(w, x, y, a)
            && #[trigger] committed_to(w, step(x, y, d).0, step(x, y, d).1, b)
            implies c.model_spec().allows_spec(a, d, b) by {
        lemma_settled_neighbours_allowed(w, c.model_spec(), x, y, d, a, b);
    }
}

} // verus!
