use wfc_tiles::adjacency::{build_adjacency_rules, sps_usage_test, AdjacencyModel};
use wfc_tiles::catalog::TileCatalog;
use wfc_tiles::collapse::{solve, ChoiceStrategy, Collapser, SolveStatus};
use wfc_tiles::propagate::{propagate, propagate_all};
use wfc_tiles::tile::{Direction, TileType, WfcError};
use wfc_tiles::wave::{create_superposition_grid, SuperpositionState, Wave};

use TileType::{Coast, Land, Mountain, Water};

const DIRS: [Direction; 4] = [Direction::Up, Direction::Down, Direction::Left, Direction::Right];

fn checkerboard() -> Vec<Vec<TileType>> {
    vec![vec![Land, Water, Land], vec![Water, Land, Water], vec![Land, Water, Land]]
}

fn coastline() -> Vec<Vec<TileType>> {
    vec![
        vec![Mountain, Land, Coast, Water],
        vec![Mountain, Land, Coast, Water],
        vec![Land, Land, Coast, Water],
    ]
}

fn neighbour(x: usize, y: usize, d: Direction, w: usize, h: usize) -> Option<(usize, usize)> {
    match d {
        Direction::Up if y > 0 => Some((x, y - 1)),
        Direction::Down if y + 1 < h => Some((x, y + 1)),
        Direction::Left if x > 0 => Some((x - 1, y)),
        Direction::Right if x + 1 < w => Some((x + 1, y)),
        _ => None,
    }
}

#[test]
fn catalog_assigns_dense_ids_in_order() {
    let mut c = TileCatalog::new();
    assert_eq!(c.register(Water), 0);
    assert_eq!(c.register(Land), 1);
    assert_eq!(c.register(Water), 0);
    assert_eq!(c.count(), 2);
    assert_eq!(c.resolve(1), Ok(Land));
    assert_eq!(c.id_of(Land), Some(1));
    assert_eq!(c.id_of(Coast), None);
}

#[test]
fn resolve_unknown_id_fails() {
    let mut c = TileCatalog::new();
    c.register(Mountain);
    assert_eq!(c.resolve(1), Err(WfcError::UnknownTileId));
    assert_eq!(c.resolve(7), Err(WfcError::UnknownTileId));
    assert_eq!(TileCatalog::new().resolve(0), Err(WfcError::UnknownTileId));
}

#[test]
fn catalog_from_sample_first_sight_order() {
    let c = TileCatalog::from_sample(&coastline());
    assert_eq!(c.count(), 4);
    assert_eq!(c.resolve(0), Ok(Mountain));
    assert_eq!(c.resolve(1), Ok(Land));
    assert_eq!(c.resolve(2), Ok(Coast));
    assert_eq!(c.resolve(3), Ok(Water));
}

#[test]
fn inverse_directions() {
    assert_eq!(Direction::Up.inverse(), Direction::Down);
    assert_eq!(Direction::Down.inverse(), Direction::Up);
    assert_eq!(Direction::Left.inverse(), Direction::Right);
    assert_eq!(Direction::Right.inverse(), Direction::Left);
}

#[test]
fn learned_model_is_symmetric() {
    let (c, m) = AdjacencyModel::learn(&coastline());
    let n = c.count();
    for a in 0..n {
        for b in 0..n {
            for d in DIRS {
                assert_eq!(m.allows(a, d, b), m.allows(b, d.inverse(), a));
            }
        }
    }
}

#[test]
fn learned_model_records_observed_pairs_only() {
    let (c, m) = AdjacencyModel::learn(&coastline());
    let mountain = c.id_of(Mountain).unwrap();
    let land = c.id_of(Land).unwrap();
    let coast = c.id_of(Coast).unwrap();
    let water = c.id_of(Water).unwrap();
    assert!(m.allows(mountain, Direction::Right, land));
    assert!(m.allows(land, Direction::Left, mountain));
    assert!(m.allows(coast, Direction::Right, water));
    assert!(!m.allows(water, Direction::Right, coast));
    assert!(!m.allows(mountain, Direction::Right, water));
    assert!(m.allows(mountain, Direction::Down, land));
    assert!(!m.allows(land, Direction::Down, mountain));
    assert!(m.allows(water, Direction::Up, water));
    assert_eq!(m.tile_count(), 4);
}

#[test]
fn learning_twice_gives_the_same_facts() {
    let (c1, m1) = AdjacencyModel::learn(&checkerboard());
    let (_c2, m2) = AdjacencyModel::learn(&checkerboard());
    for a in 0..c1.count() {
        for b in 0..c1.count() {
            for d in DIRS {
                assert_eq!(m1.allows(a, d, b), m2.allows(a, d, b));
            }
        }
    }
}

#[test]
fn frequencies_count_occurrences() {
    let (c, m) = AdjacencyModel::learn(&coastline());
    assert_eq!(m.frequency(c.id_of(Mountain).unwrap()), 2);
    assert_eq!(m.frequency(c.id_of(Land).unwrap()), 4);
    assert_eq!(m.frequency(c.id_of(Coast).unwrap()), 3);
    assert_eq!(m.frequency(c.id_of(Water).unwrap()), 3);
    assert_eq!(m.frequency(4), 0);
}

#[test]
fn build_rules_with_standard_catalog() {
    let m = sps_usage_test(&checkerboard());
    assert_eq!(m.tile_count(), 5);
    // Land is 2 and Water 4 in the standard numbering.
    assert!(m.allows(2, Direction::Right, 4));
    assert!(!m.allows(2, Direction::Right, 2));
    assert!(!m.allows(0, Direction::Up, 0));
    let c = TileCatalog::from_sample(&checkerboard());
    let m2 = build_adjacency_rules(&checkerboard(), &c);
    assert!(m2.allows(c.id_of(Water).unwrap(), Direction::Down, c.id_of(Land).unwrap()));
}

#[test]
fn superposition_states() {
    let s = SuperpositionState::new(3);
    assert_eq!(s.possible_tiles, vec![true, true, true]);
    assert!(!s.collapsed);
    assert_eq!(s.entropy, 3);
    let t = SuperpositionState::from_tile(1, 3);
    assert_eq!(t.possible_tiles, vec![false, true, false]);
    assert!(t.collapsed);
    assert_eq!(t.entropy, 1);
}

#[test]
fn superposition_grid_has_sample_shape() {
    let g = create_superposition_grid(&coastline(), 4);
    assert_eq!(g.len(), 3);
    for row in &g {
        assert_eq!(row.len(), 4);
        for c in row {
            assert_eq!(c.entropy, 4);
            assert!(!c.collapsed);
        }
    }
    assert!(create_superposition_grid(&Vec::new(), 4).is_empty());
}

#[test]
fn new_wave_is_fully_open() {
    let w = Wave::new(3, 2, 4);
    assert_eq!((w.width(), w.height(), w.tile_count()), (3, 2, 4));
    for y in 0..2 {
        for x in 0..3 {
            assert_eq!(w.possibilities_at(x, y), vec![true; 4]);
            assert_eq!(w.entropy_at(x, y), 4);
            assert_eq!(w.collapse_value_at(x, y), None);
        }
    }
}

#[test]
fn restrict_shrinks_and_reports() {
    let mut w = Wave::new(2, 2, 3);
    assert_eq!(w.restrict(1, 0, &vec![true, false, true]), Ok(true));
    assert_eq!(w.possibilities_at(1, 0), vec![true, false, true]);
    assert_eq!(w.entropy_at(1, 0), 2);
    assert_eq!(w.possibilities_at(0, 1), vec![true, true, true]);
    assert_eq!(w.restrict(1, 0, &vec![true, true, true]), Ok(false));
    assert_eq!(w.restrict(1, 0, &vec![true, true, false]), Ok(true));
    assert_eq!(w.possibilities_at(1, 0), vec![true, false, false]);
}

#[test]
fn restrict_to_nothing_is_a_contradiction() {
    let mut w = Wave::new(2, 2, 3);
    assert_eq!(w.restrict(0, 0, &vec![false, false, false]), Err(WfcError::Contradiction));
    assert_eq!(w.possibilities_at(0, 0), vec![true, true, true]);
}

#[test]
fn force_commits_or_refuses() {
    let mut w = Wave::new(2, 1, 3);
    w.restrict(0, 0, &vec![true, true, false]).unwrap();
    assert_eq!(w.force(0, 0, 2), Err(WfcError::InvalidForce));
    assert_eq!(w.force(0, 0, 5), Err(WfcError::InvalidForce));
    assert_eq!(w.force(0, 0, 1), Ok(()));
    assert_eq!(w.collapse_value_at(0, 0), Some(1));
    assert!(w.is_collapsed(0, 0));
    assert_eq!(w.possibilities_at(0, 0), vec![false, true, false]);
    assert_eq!(w.collapse_value_at(1, 0), None);
}

#[test]
fn propagation_forces_checkerboard() {
    let (c, m) = AdjacencyModel::learn(&checkerboard());
    let land = c.id_of(Land).unwrap();
    let water = c.id_of(Water).unwrap();
    let mut w = Wave::new(3, 3, 2);
    propagate_all(&mut w, &m).unwrap();
    w.force(0, 0, land).unwrap();
    propagate(&mut w, &m, 0, 0).unwrap();
    for y in 0..3 {
        for x in 0..3 {
            let mut expect = vec![false; 2];
            expect[if (x + y) % 2 == 0 { land } else { water }] = true;
            assert_eq!(w.possibilities_at(x, y), expect);
        }
    }
}

#[test]
fn propagation_at_fixpoint_changes_nothing() {
    let (_c, m) = AdjacencyModel::learn(&coastline());
    let mut w = Wave::new(4, 3, 4);
    propagate_all(&mut w, &m).unwrap();
    w.force(1, 1, 1).unwrap();
    propagate(&mut w, &m, 1, 1).unwrap();
    let before = w.snapshot();
    propagate_all(&mut w, &m).unwrap();
    propagate(&mut w, &m, 2, 0).unwrap();
    for y in 0..3 {
        for x in 0..4 {
            assert_eq!(w.possibilities_at(x, y), before.possibilities_at(x, y));
        }
    }
}

#[test]
fn propagation_reports_contradiction() {
    // Land never lies next to Land, so forcing two adjacent Land cells fails.
    let (c, m) = AdjacencyModel::learn(&checkerboard());
    let land = c.id_of(Land).unwrap();
    let mut w = Wave::new(2, 1, 2);
    w.force(0, 0, land).unwrap();
    w.force(1, 0, land).unwrap();
    assert_eq!(propagate(&mut w, &m, 0, 0), Err(WfcError::Contradiction));
}

#[test]
fn checkerboard_sample_gives_checkerboard_output() {
    match solve(&checkerboard(), 4, 4, 7, 10) {
        Ok(out) => {
            assert_eq!(out.len(), 4);
            for y in 0..4 {
                assert_eq!(out[y].len(), 4);
                for x in 0..4 {
                    assert!(out[y][x] == Land || out[y][x] == Water);
                    for d in DIRS {
                        if let Some((nx, ny)) = neighbour(x, y, d, 4, 4) {
                            assert_ne!(out[y][x], out[ny][nx]);
                        }
                    }
                }
            }
        }
        Err(e) => assert_eq!(e, WfcError::SolveFailed),
    }
}

#[test]
fn uniform_sample_gives_uniform_output() {
    let sample = vec![vec![Mountain; 3]; 3];
    for (w, h) in [(1, 1), (2, 5), (6, 4)] {
        let out = solve(&sample, w, h, 11, 0).unwrap();
        assert_eq!(out, vec![vec![Mountain; w]; h]);
    }
}

#[test]
fn same_seed_same_output() {
    let a = solve(&coastline(), 6, 5, 42, 20);
    let b = solve(&coastline(), 6, 5, 42, 20);
    assert_eq!(a, b);
}

#[test]
fn empty_output_is_solved() {
    assert_eq!(solve(&coastline(), 0, 0, 1, 0), Ok(vec![]));
    assert_eq!(solve(&coastline(), 0, 3, 1, 0), Ok(vec![vec![], vec![], vec![]]));
    let (_c, m) = AdjacencyModel::learn(&coastline());
    let mut s = Collapser::new(m, 5, 0, 3, 0);
    assert_eq!(s.step(), SolveStatus::Solved);
    assert_eq!(s.run(), Ok(vec![]));
}

#[test]
fn solved_output_respects_adjacency() {
    let sample = coastline();
    for seed in 0..8 {
        if let Ok(out) = solve(&sample, 7, 6, seed, 50) {
            for y in 0..6 {
                for x in 0..7 {
                    for d in DIRS {
                        if let Some((nx, ny)) = neighbour(x, y, d, 7, 6) {
                            let mut seen = false;
                            for sy in 0..sample.len() {
                                for sx in 0..sample[sy].len() {
                                    if let Some((tx, ty)) = neighbour(sx, sy, d, sample[sy].len(), sample.len()) {
                                        if sample[sy][sx] == out[y][x] && sample[ty][tx] == out[ny][nx] {
                                            seen = true;
                                        }
                                    }
                                }
                            }
                            assert!(seen);
                        }
                    }
                }
            }
        }
    }
}

#[test]
fn collapser_steps_to_solved() {
    let (_c, m) = AdjacencyModel::learn(&checkerboard());
    let mut s = Collapser::new(m, 3, 2, 5, 3);
    assert_eq!(s.status(), SolveStatus::Running);
    let mut steps = 0;
    while s.step() == SolveStatus::Running {
        steps += 1;
        assert!(steps < 100);
    }
    assert_eq!(s.status(), SolveStatus::Solved);
    let out = s.run().unwrap();
    assert_eq!(out.len(), 2);
    assert_ne!(out[0][0], out[0][1]);
    assert_ne!(out[0][0], out[1][0]);
}

#[test]
fn cancelled_solve_fails() {
    let (_c, m) = AdjacencyModel::learn(&checkerboard());
    let mut s = Collapser::new(m, 4, 4, 5, 3);
    s.cancel();
    assert_eq!(s.step(), SolveStatus::Failed);
    assert_eq!(s.run(), Err(WfcError::SolveFailed));
}

#[test]
fn unsatisfiable_output_fails() {
    // A one-cell sample teaches no adjacency at all: any two cells clash.
    let sample = vec![vec![Water]];
    assert_eq!(solve(&sample, 2, 1, 3, 5), Err(WfcError::SolveFailed));
    assert_eq!(solve(&sample, 1, 1, 3, 5), Ok(vec![vec![Water]]));
}


#[test]
fn uniform_strategy_solves_checkerboard() {
    let (c, m) = AdjacencyModel::learn(&checkerboard());
    let land = c.id_of(Land).unwrap();
    let water = c.id_of(Water).unwrap();
    let mut s = Collapser::new(m, 5, 3, 99, 4);
    s.set_strategy(ChoiceStrategy::Uniform);
    let out = s.run().unwrap();
    for y in 0..3 {
        for x in 0..5 {
            let same_as_corner = (x + y) % 2 == 0;
            assert_eq!(out[y][x] == out[0][0], same_as_corner);
            assert!(out[y][x] == land || out[y][x] == water);
        }
    }
}

#[test]
fn same_seed_collapsers_agree() {
    let (_c, m1) = AdjacencyModel::learn(&coastline());
    let (_c2, m2) = AdjacencyModel::learn(&coastline());
    let a = Collapser::new(m1, 6, 4, 1, 30).run();
    let b = Collapser::new(m2, 6, 4, 1, 30).run();
    assert_eq!(a, b);
}
