use vstd::prelude::*;
use crate::adjacency::{supported, AdjacencyModel};
use crate::tile::{step, Direction, WfcError};
use crate::wave::{count_true, intersect, lemma_count_zero, subset_of, Wave};

verus! {

/// Every tile still possible at the neighbour of column `x`, row `y`
/// towards `d` (if there is one) is allowed there by some tile still
/// possible at the cell itself.
pub open spec fn link_ok(w: Wave, m: AdjacencyModel, x: int, y: int, d: Direction) -> bool {
    w.in_bounds(step(x, y, d).0, step(x, y, d).1) ==> forall|b: int|
        0 <= b < w.tile_count_spec() && #[trigger] w.poss(step(x, y, d).0, step(x, y, d).1)[b]
            ==> supported(m, w.poss(x, y), d, b)
}

/// Nothing more can be removed around column `x`, row `y` on its account.
pub open spec fn cell_good(w: Wave, m: AdjacencyModel, x: int, y: int) -> bool {
    forall|d: Direction| #[trigger] link_ok(w, m, x, y, d)
}

/// The wave is a fixpoint of propagation.
pub open spec fn all_good(w: Wave, m: AdjacencyModel) -> bool {
    forall|x: int, y: int| w.in_bounds(x, y) ==> #[trigger] cell_good(w, m, x, y)
}

/// Some cell has a neighbour towards some direction none of whose
/// remaining tiles is allowed there by any tile the cell still holds: the
/// wave cannot be settled without emptying that neighbour.
pub open spec fn contradicted(w: Wave, m: AdjacencyModel) -> bool {
    exists|x: int, y: int, d: Direction|
        w.in_bounds(x, y) && w.in_bounds(step(x, y, d).0, step(x, y, d).1)
            && #[trigger] unsupported_link(w, m, x, y, d)
}

/// No tile still possible at the neighbour of column `x`, row `y` towards
/// `d` is allowed there by a tile still possible at the cell.
pub open spec fn unsupported_link(w: Wave, m: AdjacencyModel, x: int, y: int, d: Direction) -> bool {
    forall|b: int|
        0 <= b < w.tile_count_spec() && #[trigger] w.poss(step(x, y, d).0, step(x, y, d).1)[b]
            ==> !supported(m, w.poss(x, y), d, b)
}

/// Every settled wave that lies within `o` also lies within `w`: going from
/// `o` to `w` removed only possibilities that no settled wave keeps.
pub open spec fn keeps_fixpoints(w: Wave, o: Wave, m: AdjacencyModel) -> bool {
    forall|w2: Wave| #[trigger] w2.shrunk_from(&o) && all_good(w2, m) ==> w2.shrunk_from(&w)
}

/// Every cell of `w` outside `worklist` is settled.
pub open spec fn settled_outside(w: Wave, m: AdjacencyModel, worklist: Seq<(usize, usize)>) -> bool {
    forall|x: int, y: int| w.in_bounds(x, y) && !worklist.contains((x as usize, y as usize))
        ==> #[trigger] cell_good(w, m, x, y)
}

/// No cell has run out of possibilities.
pub open spec fn no_empty(w: Wave) -> bool {
    forall|x: int, y: int| w.in_bounds(x, y) ==> count_true(#[trigger] w.poss(x, y)) > 0
}

/// Every cell keeps its commitment flag from `o`.
pub open spec fn same_commitments(w: Wave, o: Wave) -> bool {
    forall|x: int, y: int| w.in_bounds(x, y) ==> (#[trigger] w.cell(x, y)).collapsed == o.cell(x, y).collapsed
}

/// A link stays intact when the neighbour only loses possibilities and the
/// cell itself is untouched.
proof fn lemma_link_kept(old: Wave, new: Wave, m: AdjacencyModel, x: int, y: int, d: Direction)
    requires
        link_ok(old, m, x, y, d),
        new.wf(),
        new.shrunk_from(&old),
        new.poss(x, y) == old.poss(x, y),
    ensures
        link_ok(new, m, x, y, d),
{
    let (nx, ny) = step(x, y, d);
    if new.in_bounds(nx, ny) {
        assert forall|b: int| 0 <= b < new.tile_count_spec() && #[trigger] new.poss(nx, ny)[b]
            implies supported(m, new.poss(x, y), d, b) by {
            assert(new.cell(nx, ny).wf(new.tile_count_spec()));
            assert(subset_of(new.poss(nx, ny), old.poss(nx, ny)));
            assert(old.poss(nx, ny)[b]);
        }
    }
}

/// The neighbour of a cell of the wave towards `d`, if it is on the grid.
fn wave_neighbour(w: &Wave, x: usize, y: usize, d: Direction) -> (r: Option<(usize, usize)>)
    requires
        w.in_bounds(x as int, y as int),
    ensures
        match r {
            Some(p) => (p.0 as int, p.1 as int) == step(x as int, y as int, d) && w.in_bounds(p.0 as int, p.1 as int),
            None => !w.in_bounds(step(x as int, y as int, d).0, step(x as int, y as int, d).1),
        },
{
    let width = w.width();
    let height = w.height();
    match d {
        Direction::Up => if y > 0 { Some((x, y - 1)) } else { None },
        Direction::Down => if y + 1 < height { Some((x, y + 1)) } else { None },
        Direction::Left => if x > 0 { Some((x - 1, y)) } else { None },
        Direction::Right => if x + 1 < width { Some((x + 1, y)) } else { None },
    }
}

/// Removes, transitively from the cells of `worklist`, every possibility
/// that no possibility of a neighbour supports, until nothing changes.
/// Cells outside the worklist must already be settled. Stops at the first
/// cell left empty with `Contradiction`; the wave is then to be discarded.
/// On a wave that is already a fixpoint it changes nothing.
pub fn propagate_from(wave: &mut Wave, model: &AdjacencyModel, worklist: Vec<(usize, usize)>) -> (r: Result<(), WfcError>)
    requires
        old(wave).wf(),
        model.wf(),
        model.tile_count_spec() == old(wave).tile_count_spec(),
        forall|i: int| 0 <= i < worklist@.len() ==> old(wave).in_bounds(
            (#[trigger] worklist@[i]).0 as int, worklist@[i].1 as int),
    ensures
        final(wave).wf(),
        final(wave).shrunk_from(old(wave)),
        final(wave).measure() <= old(wave).measure(),
        same_commitments(*final(wave), *old(wave)),
        settled_outside(*old(wave), *model, worklist@) && r is Ok ==> all_good(*final(wave), *model),
        r is Err ==> r == Err::<(), WfcError>(WfcError::Contradiction) && contradicted(*final(wave), *model),
        keeps_fixpoints(*final(wave), *old(wave), *model),
        all_good(*old(wave), *model) ==> *final(wave) == *old(wave),
        all_good(*old(wave), *model) && no_empty(*old(wave)) ==> r is Ok,
{
    let ghost start = *wave;
    let ghost pre = settled_outside(*wave, *model, worklist@);
    let dirs = Direction::all();
    let mut work = worklist;
    while work.len() > 0
        invariant
            wave.wf(),
            model.wf(),
            model.tile_count_spec() == wave.tile_count_spec(),
            dirs@ == seq![Direction::Up, Direction::Down, Direction::Left, Direction::Right],
            forall|i: int| 0 <= i < work@.len() ==> wave.in_bounds((#[trigger] work@[i]).0 as int, work@[i].1 as int),
            pre ==> forall|x: int, y: int| wave.in_bounds(x, y) && !work@.contains((x as usize, y as usize))
                ==> #[trigger] cell_good(*wave, *model, x, y),
            start == *old(wave),
            pre == settled_outside(start, *model, worklist@),
            keeps_fixpoints(*wave, start, *model),
            wave.shrunk_from(&start),
            wave.measure() <= start.measure(),
            same_commitments(*wave, start),
            all_good(start, *model) ==> *wave == start,
        decreases wave.measure(), work.len(),
    {
        let ghost m0 = wave.measure();
        let ghost before_pop = work@;
        let (x, y) = work.pop().unwrap();
        let ghost w0 = work@;
        assert(before_pop[before_pop.len() - 1] == (x, y));
        assert(wave.in_bounds(x as int, y as int));
        let p = wave.possibilities_at(x, y);
        proof {
            if pre {
            assert forall|cx: int, cy: int| wave.in_bounds(cx, cy) && (cx, cy) != (x as int, y as int)
                && !work@.contains((cx as usize, cy as usize)) implies #[trigger] cell_good(*wave, *model, cx, cy) by {
                if before_pop.contains((cx as usize, cy as usize)) {
                    let j = choose|j: int| 0 <= j < before_pop.len() && before_pop[j] == (cx as usize, cy as usize);
                    if j < before_pop.len() - 1 {
                        assert(work@[j] == (cx as usize, cy as usize));
                    }
                }
            }
            }
        }
        let mut i: usize = 0;
        while i < 4
            invariant
                wave.wf(),
                model.wf(),
                model.tile_count_spec() == wave.tile_count_spec(),
                dirs@ == seq![Direction::Up, Direction::Down, Direction::Left, Direction::Right],
                i <= 4,
                wave.in_bounds(x as int, y as int),
                p@ == wave.poss(x as int, y as int),
                forall|i: int| 0 <= i < work@.len() ==> wave.in_bounds((#[trigger] work@[i]).0 as int, work@[i].1 as int),
                pre ==> forall|cx: int, cy: int| wave.in_bounds(cx, cy) && (cx, cy) != (x as int, y as int)
                    && !work@.contains((cx as usize, cy as usize)) ==> #[trigger] cell_good(*wave, *model, cx, cy),
                forall|j: int| 0 <= j < i ==> #[trigger] link_ok(*wave, *model, x as int, y as int, dirs@[j]),
                start == *old(wave),
                pre == settled_outside(start, *model, worklist@),
                keeps_fixpoints(*wave, start, *model),
                wave.shrunk_from(&start),
                wave.measure() <= m0,
                m0 <= start.measure(),
                wave.measure() < m0 || work@ == w0,
                w0.len() < before_pop.len(),
                same_commitments(*wave, start),
                all_good(start, *model) ==> *wave == start,
            decreases 4 - i,
        {
            let d = dirs[i];
            let ghost wb = *wave;
            let ghost wk = work@;
            match wave_neighbour(wave, x, y, d) {
                Some(q) => {
                    let (nx, ny) = q;
                    let allowed = model.supported_neighbours(&p, d);
                    proof {
                        if all_good(start, *model) {
                            assert(cell_good(start, *model, x as int, y as int));
                            assert(link_ok(start, *model, x as int, y as int, d));
                            assert(intersect(wave.poss(nx as int, ny as int), allowed@) =~= wave.poss(nx as int, ny as int));
                        }
                    }
                    let res = wave.restrict(nx, ny, &allowed);
                    match res {
                        Err(e) => {
                            assert(*wave == wb);
                            proof {
                                let q = wave.poss(nx as int, ny as int);
                                lemma_count_zero(intersect(q, allowed@), q.len() as int);
                                assert forall|b: int|
                                    0 <= b < wave.tile_count_spec() && #[trigger] wave.poss(step(x as int, y as int, d).0, step(x as int, y as int, d).1)[b]
                                        implies !supported(*model, wave.poss(x as int, y as int), d, b) by {
                                    assert(wave.cell(nx as int, ny as int).wf(wave.tile_count_spec()));
                                    assert(!intersect(q, allowed@)[b]);
                                }
                                assert(unsupported_link(*wave, *model, x as int, y as int, d));
                                assert(wave.in_bounds(x as int, y as int));
                            }
                            return Err(e);
                        },
                        Ok(changed) => {
                            if changed {
                                work.push((nx, ny));
                            }
                            proof {
                                assert(wave.poss(x as int, y as int) == wb.poss(x as int, y as int)) by {
                                    assert(wave.cell(x as int, y as int) == wb.cell(x as int, y as int));
                                }
                                assert forall|j: int| 0 <= j < i + 1 implies #[trigger] link_ok(*wave, *model, x as int, y as int, dirs@[j]) by {
                                    if j < i {
                                        lemma_link_kept(wb, *wave, *model, x as int, y as int, dirs@[j]);
                                    } else {
                                        assert forall|b: int| 0 <= b < wave.tile_count_spec()
                                            && #[trigger] wave.poss(nx as int, ny as int)[b]
                                            implies supported(*model, wave.poss(x as int, y as int), d, b) by {
                                            if !changed {
                                                assert(intersect(wb.poss(nx as int, ny as int), allowed@)[b]);
                                            }
                                        }
                                    }
                                }
                                assert forall|w2: Wave| #[trigger] w2.shrunk_from(&start) && all_good(w2, *model)
                                    implies w2.shrunk_from(wave) by {
                                    assert(w2.shrunk_from(&wb));
                                    assert forall|cx: int, cy: int| w2.in_bounds(cx, cy)
                                        implies subset_of(#[trigger] w2.poss(cx, cy), wave.poss(cx, cy)) by {
                                        assert(subset_of(w2.poss(cx, cy), wb.poss(cx, cy)));
                                        if (cx, cy) != (nx as int, ny as int) {
                                            assert(wave.cell(cx, cy) == wb.cell(cx, cy));
                                        } else if changed {
                                            assert forall|b: int| 0 <= b < w2.poss(cx, cy).len() && #[trigger] w2.poss(cx, cy)[b]
                                                implies wave.poss(cx, cy)[b] by {
                                                assert(wb.cell(cx, cy).wf(wb.tile_count_spec()));
                                                assert(wb.poss(cx, cy)[b]);
                                                assert(cell_good(w2, *model, x as int, y as int));
                                                assert(link_ok(w2, *model, x as int, y as int, d));
                                                assert(supported(*model, w2.poss(x as int, y as int), d, b));
                                                let a = choose|a: int| 0 <= a < w2.poss(x as int, y as int).len()
                                                    && w2.poss(x as int, y as int)[a] && #[trigger] model.allows_spec(a, d, b);
                                                assert(subset_of(w2.poss(x as int, y as int), wb.poss(x as int, y as int)));
                                                assert(wb.poss(x as int, y as int)[a]);
                                                assert(supported(*model, p@, d, b));
                                                assert(allowed@[b]);
                                            }
                                        }
                                    }
                                }
                                if pre {
                                assert forall|cx: int, cy: int| wave.in_bounds(cx, cy) && (cx, cy) != (x as int, y as int)
                                    && !work@.contains((cx as usize, cy as usize)) implies #[trigger] cell_good(*wave, *model, cx, cy) by {
                                    if changed {
                                        assert((cx, cy) != (nx as int, ny as int)) by {
                                            assert(work@[work@.len() - 1] == (nx, ny));
                                        }
                                        if wk.contains((cx as usize, cy as usize)) {
                                            let j = choose|j: int| 0 <= j < wk.len() && wk[j] == (cx as usize, cy as usize);
                                            assert(work@[j] == wk[j]);
                                        }
                                        assert(cell_good(wb, *model, cx, cy));
                                        assert(wave.cell(cx, cy) == wb.cell(cx, cy));
                                        assert forall|dd: Direction| #[trigger] link_ok(*wave, *model, cx, cy, dd) by {
                                            assert(link_ok(wb, *model, cx, cy, dd));
                                            lemma_link_kept(wb, *wave, *model, cx, cy, dd);
                                        }
                                    }
                                }
                                }
                                assert forall|cx: int, cy: int| wave.in_bounds(cx, cy) implies
                                    (#[trigger] wave.cell(cx, cy)).collapsed == start.cell(cx, cy).collapsed by {
                                    if (cx, cy) != (nx as int, ny as int) {
                                        assert(wave.cell(cx, cy) == wb.cell(cx, cy));
                                    }
                                    assert(wb.cell(cx, cy).collapsed == start.cell(cx, cy).collapsed);
                                }
                                assert forall|cx: int, cy: int| wave.in_bounds(cx, cy) implies
                                    subset_of(#[trigger] wave.poss(cx, cy), start.poss(cx, cy)) by {
                                    assert(subset_of(wave.poss(cx, cy), wb.poss(cx, cy)));
                                    assert(subset_of(wb.poss(cx, cy), start.poss(cx, cy)));
                                }
                            }
                        },
                    }
                },
                None => {},
            }
            i = i + 1;
        }
        proof {
            assert forall|dd: Direction| #[trigger] link_ok(*wave, *model, x as int, y as int, dd) by {
                let j: int = match dd {
                    Direction::Up => 0,
                    Direction::Down => 1,
                    Direction::Left => 2,
                    Direction::Right => 3,
                };
                assert(dirs@[j] == dd);
            }
        }
    }
    Ok(())
}

} // verus!

verus! {

/// Propagates the shrinking of the cell at column `x`, row `y`. Where every
/// other cell was settled, a success leaves the whole wave settled.
pub fn propagate(wave: &mut Wave, model: &AdjacencyModel, x: usize, y: usize) -> (r: Result<(), WfcError>)
    requires
        old(wave).wf(),
        model.wf(),
        model.tile_count_spec() == old(wave).tile_count_spec(),
        old(wave).in_bounds(x as int, y as int),
    ensures
        final(wave).wf(),
        final(wave).shrunk_from(old(wave)),
        final(wave).measure() <= old(wave).measure(),
        same_commitments(*final(wave), *old(wave)),
        r is Ok && (forall|cx: int, cy: int| old(wave).in_bounds(cx, cy) && (cx, cy) != (x as int, y as int)
            ==> #[trigger] cell_good(*old(wave), *model, cx, cy)) ==> all_good(*final(wave), *model),
        r is Err ==> r == Err::<(), WfcError>(WfcError::Contradiction) && contradicted(*final(wave), *model),
        keeps_fixpoints(*final(wave), *old(wave), *model),
        all_good(*old(wave), *model) ==> *final(wave) == *old(wave),
        all_good(*old(wave), *model) && no_empty(*old(wave)) ==> r is Ok,
{
    let mut worklist: Vec<(usize, usize)> = Vec::new();
    worklist.push((x, y));
    proof {
        if forall|cx: int, cy: int| old(wave).in_bounds(cx, cy) && (cx, cy) != (x as int, y as int)
            ==> #[trigger] cell_good(*old(wave), *model, cx, cy) {
            assert forall|cx: int, cy: int| old(wave).in_bounds(cx, cy) && !worklist@.contains((cx as usize, cy as usize))
                implies #[trigger] cell_good(*old(wave), *model, cx, cy) by {
                if (cx, cy) == (x as int, y as int) {
                    assert(worklist@[0] == (x, y));
                }
            }
        }
    }
    propagate_from(wave, model, worklist)
}

/// Propagates from every cell: settles a freshly built wave.
pub fn propagate_all(wave: &mut Wave, model: &AdjacencyModel) -> (r: Result<(), WfcError>)
    requires
        old(wave).wf(),
        model.wf(),
        model.tile_count_spec() == old(wave).tile_count_spec(),
    ensures
        final(wave).wf(),
        final(wave).shrunk_from(old(wave)),
        final(wave).measure() <= old(wave).measure(),
        same_commitments(*final(wave), *old(wave)),
        r is Ok ==> all_good(*final(wave), *model),
        r is Err ==> r == Err::<(), WfcError>(WfcError::Contradiction) && contradicted(*final(wave), *model),
        keeps_fixpoints(*final(wave), *old(wave), *model),
        all_good(*old(wave), *model) ==> *final(wave) == *old(wave),
        all_good(*old(wave), *model) && no_empty(*old(wave)) ==> r is Ok,
{
    let width = wave.width();
    let height = wave.height();
    let mut worklist: Vec<(usize, usize)> = Vec::new();
    let mut y: usize = 0;
    while y < height
        invariant
            wave.wf(),
            width == wave.width_spec(),
            height == wave.height_spec(),
            y <= height,
            forall|i: int| 0 <= i < worklist@.len() ==> wave.in_bounds((#[trigger] worklist@[i]).0 as int, worklist@[i].1 as int),
            forall|cx: int, cy: int| 0 <= cy < y && 0 <= cx < width ==> #[trigger] worklist@.contains((cx as usize, cy as usize)),
        decreases height - y,
    {
        let mut x: usize = 0;
        while x < width
            invariant
                wave.wf(),
                width == wave.width_spec(),
                height == wave.height_spec(),
                y < height,
                x <= width,
                forall|i: int| 0 <= i < worklist@.len() ==> wave.in_bounds((#[trigger] worklist@[i]).0 as int, worklist@[i].1 as int),
                forall|cx: int, cy: int| (0 <= cy < y && 0 <= cx < width) || (cy == y && 0 <= cx < x)
                    ==> #[trigger] worklist@.contains((cx as usize, cy as usize)),
            decreases width - x,
        {
            let ghost before = worklist@;
            worklist.push((x, y));
            proof {
                assert forall|cx: int, cy: int| (0 <= cy < y && 0 <= cx < width) || (cy == y && 0 <= cx < x + 1)
                    implies #[trigger] worklist@.contains((cx as usize, cy as usize)) by {
                    if cy == y && cx == x {
                        assert(worklist@[before.len() as int] == (x, y));
                    } else {
                        assert(before.contains((cx as usize, cy as usize)));
                        let j = choose|j: int| 0 <= j < before.len() && before[j] == (cx as usize, cy as usize);
                        assert(worklist@[j] == before[j]);
                    }
                }
            }
            x = x + 1;
        }
        y = y + 1;
    }
    propagate_from(wave, model, worklist)
}

} // verus!

verus! {

/// Whether a wave is a fixpoint depends on its possibility sets alone.
pub proof fn lemma_good_same_possibilities(w1: Wave, w2: Wave, m: AdjacencyModel)
    requires
        w1.same_shape(&w2),
        forall|x: int, y: int| w1.in_bounds(x, y) ==> #[trigger] w1.poss(x, y) == w2.poss(x, y),
        all_good(w1, m),
    ensures
        all_good(w2, m),
{
    assert forall|x: int, y: int| w2.in_bounds(x, y) implies #[trigger] cell_good(w2, m, x, y) by {
        assert(cell_good(w1, m, x, y));
        assert forall|d: Direction| #[trigger] link_ok(w2, m, x, y, d) by {
            assert(link_ok(w1, m, x, y, d));
            let (nx, ny) = step(x, y, d);
            if w2.in_bounds(nx, ny) {
                assert(w1.poss(nx, ny) == w2.poss(nx, ny));
                assert(w1.poss(x, y) == w2.poss(x, y));
            }
        }
    }
}

/// Shrinking one cell of a fixpoint leaves every other cell settled.
pub proof fn lemma_others_settled(old: Wave, new: Wave, m: AdjacencyModel, x: int, y: int)
    requires
        new.wf(),
        all_good(old, m),
        new.same_except(&old, x, y),
        new.shrunk_from(&old),
    ensures
        forall|cx: int, cy: int| new.in_bounds(cx, cy) && (cx, cy) != (x, y) ==> #[trigger] cell_good(new, m, cx, cy),
{
    assert forall|cx: int, cy: int| new.in_bounds(cx, cy) && (cx, cy) != (x, y) implies #[trigger] cell_good(new, m, cx, cy) by {
        assert(cell_good(old, m, cx, cy));
        assert(new.cell(cx, cy) == old.cell(cx, cy));
        assert forall|d: Direction| #[trigger] link_ok(new, m, cx, cy, d) by {
            assert(link_ok(old, m, cx, cy, d));
            lemma_link_kept(old, new, m, cx, cy, d);
        }
    }
}

} // verus!
