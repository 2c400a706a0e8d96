use gol_rs::grid::{join_bands, row_bands};
use gol_rs::grid::Grid;
use gol_rs::rule::Rule;
use gol_rs::state::{DEAD, LIVE, REFRACTORY};

#[test]
fn blinker_oscillates() {
    let mut g = Grid::new(5, 5);
    g.set(1, 2, true);
    g.set(2, 2, true);
    g.set(3, 2, true);
    g.step();
    assert!(!g.get(1, 2));
    assert!(!g.get(3, 2));
    assert!(g.get(2, 1));
    assert!(g.get(2, 2));
    assert!(g.get(2, 3));
    g.step();
    assert!(g.get(1, 2));
    assert!(g.get(2, 2));
    assert!(g.get(3, 2));
}

#[test]
fn block_is_still_life() {
    let mut g = Grid::new(4, 4);
    g.set(1, 1, true);
    g.set(2, 1, true);
    g.set(1, 2, true);
    g.set(2, 2, true);
    let snapshot = g.cells.clone();
    let stats = g.step();
    assert_eq!(g.cells, snapshot);
    assert_eq!(stats.births, 0);
    assert_eq!(stats.deaths, 0);
}

#[test]
fn beehive_is_still_life() {
    let mut g = Grid::new(6, 5);
    g.set(2, 1, true);
    g.set(3, 1, true);
    g.set(1, 2, true);
    g.set(4, 2, true);
    g.set(2, 3, true);
    g.set(3, 3, true);
    let before = g.clone();
    g.step();
    assert!(g.equals(&before));
}

#[test]
fn toroidal_wrap_counts_corner_neighbor() {
    let mut g = Grid::new(5, 5);
    g.set(0, 0, true);
    assert_eq!(g.count_neighbors(4, 4), 1);
}

#[test]
fn finite_corner_has_no_wrap_neighbor() {
    let mut g = Grid::with_wrap(3, 3, false);
    g.set(0, 0, true);
    assert_eq!(g.count_neighbors(2, 2), 0);
    assert_eq!(g.count_neighbors(0, 1), 1);
    assert_eq!(g.count_neighbors(1, 0), 1);
    assert_eq!(g.count_neighbors(1, 1), 1);
}

#[test]
fn finite_vs_toroidal_corner_3x3() {
    let mut tor = Grid::with_wrap(3, 3, true);
    let mut fin = Grid::with_wrap(3, 3, false);
    tor.set(0, 0, true);
    fin.set(0, 0, true);
    assert_eq!(tor.count_neighbors(2, 2), 1);
    assert_eq!(fin.count_neighbors(2, 2), 0);
    assert_eq!(tor.count_neighbors(1, 1), 1);
    assert_eq!(fin.count_neighbors(1, 1), 1);
}

#[test]
fn lonely_cell_dies() {
    let mut g = Grid::new(5, 5);
    g.set(2, 2, true);
    let stats = g.step();
    assert_eq!(g.population(), 0);
    assert_eq!(stats.deaths, 1);
    assert_eq!(stats.births, 0);
}

#[test]
fn equality_detects_stable() {
    let mut g = Grid::new(4, 4);
    g.set(1, 1, true);
    g.set(2, 1, true);
    g.set(1, 2, true);
    g.set(2, 2, true);
    let prev = g.clone();
    g.step();
    assert_eq!(g, prev);
}

#[test]
fn step_stats_births() {
    let mut g = Grid::new(5, 5);
    g.set(1, 2, true);
    g.set(2, 2, true);
    g.set(3, 2, true);
    let stats = g.step();
    assert_eq!(stats.births, 2);
    assert_eq!(stats.deaths, 2);
    assert_eq!(g.population(), 3);
}

#[test]
fn age_increments_for_still_life() {
    let mut g = Grid::new(4, 4);
    g.set(1, 1, true);
    g.set(2, 1, true);
    g.set(1, 2, true);
    g.set(2, 2, true);
    assert_eq!(g.age_at(1, 1), 1);
    g.step();
    assert_eq!(g.age_at(1, 1), 2);
    g.step();
    assert_eq!(g.age_at(1, 1), 3);
    assert_eq!(g.age_at(2, 2), 3);
    assert_eq!(g.age_at(0, 0), 0);
}

#[test]
fn age_newborn_is_one() {
    let mut g = Grid::new(5, 5);
    g.set(1, 2, true);
    g.set(2, 2, true);
    g.set(3, 2, true);
    g.step();
    assert!(g.get(2, 1));
    assert_eq!(g.age_at(2, 1), 1);
    assert_eq!(g.age_at(2, 3), 1);
    assert_eq!(g.age_at(2, 2), 2);
}

#[test]
fn grid_highlife_births_on_6() {
    let mut g = Grid::new(5, 5);
    for &(x, y) in &[(1, 1), (2, 1), (3, 1), (1, 2), (3, 2), (1, 3)] {
        g.set(x, y, true);
    }
    assert!(!g.get(2, 2));
    assert_eq!(g.count_neighbors(2, 2), 6);

    let mut gc = g.clone();
    gc.step_with(&Rule::conway());
    assert!(!gc.get(2, 2));

    g.step_with(&Rule::highlife());
    assert!(g.get(2, 2));
    assert_eq!(g.age_at(2, 2), 1);
}

#[test]
fn rule_conway_blinker_still_works() {
    let mut g = Grid::new(5, 5);
    g.set(1, 2, true);
    g.set(2, 2, true);
    g.set(3, 2, true);
    let rule = Rule::parse("conway").unwrap();
    g.step_with(&rule);
    assert!(g.get(2, 1) && g.get(2, 2) && g.get(2, 3));
    g.step_with(&rule);
    assert!(g.get(1, 2) && g.get(2, 2) && g.get(3, 2));
}

#[test]
fn seeds_no_survival() {
    let mut g = Grid::new(6, 6);
    g.set(2, 2, true);
    g.set(3, 2, true);
    g.step_with(&Rule::seeds());
    assert!(!g.get(2, 2));
    assert!(!g.get(3, 2));
    assert!(g.get(2, 1));
    assert!(g.get(3, 1));
    assert!(g.get(2, 3));
    assert!(g.get(3, 3));
}

#[test]
fn brians_brain_firing_to_refractory_to_dead() {
    let mut g = Grid::with_states(5, 5, true, 3);
    // Two firing neighbors for center dead cell → birth
    g.set_state(1, 2, LIVE);
    g.set_state(3, 2, LIVE);
    // Center is dead with exactly 2 firing neighbors
    assert_eq!(g.get_state(2, 2), 0);
    assert_eq!(g.count_neighbors_state(2, 2, LIVE), 2);
    g.step_brians_brain();
    assert_eq!(g.get_state(2, 2), LIVE); // born firing
    // Original firing cells become refractory
    assert_eq!(g.get_state(1, 2), REFRACTORY);
    assert_eq!(g.get_state(3, 2), REFRACTORY);
    g.step_brians_brain();
    // Refractory → dead
    assert_eq!(g.get_state(1, 2), DEAD);
    assert_eq!(g.get_state(3, 2), DEAD);
    // Center firing → refractory
    assert_eq!(g.get_state(2, 2), REFRACTORY);
    g.step_brians_brain();
    assert_eq!(g.get_state(2, 2), DEAD);
}

#[test]
fn brians_brain_no_birth_with_one_neighbor() {
    let mut g = Grid::with_states(5, 5, true, 3);
    g.set_state(2, 2, LIVE);
    g.step_brians_brain();
    // No new firings from lonely cell
    assert_eq!(g.count_state(LIVE), 0);
    assert_eq!(g.get_state(2, 2), REFRACTORY);
}

#[test]
fn step_with_matches_sequential_step() {
    let mut a = Grid::with_wrap(9, 7, false);
    for &(x, y) in &[(1, 1), (2, 1), (3, 1), (4, 2), (0, 5), (8, 6), (5, 5), (6, 5), (7, 5)] {
        a.set(x, y, true);
    }
    let mut b = a.clone();
    for _ in 0..4 {
        let s1 = a.step_with(&Rule::highlife());
        let s2 = b.step_with_sequential(&Rule::highlife());
        assert_eq!(s1, s2);
        assert_eq!(a.cells, b.cells);
        assert_eq!(a.ages, b.ages);
    }
}

#[test]
fn live_bounds_and_max_age() {
    let mut g = Grid::new(6, 6);
    assert_eq!(g.live_bounds(), None);
    g.set(1, 4, true);
    g.set(3, 2, true);
    assert_eq!(g.live_bounds(), Some((1, 2, 3, 4)));
    assert_eq!(g.max_age(), 1);
    g.clear();
    assert_eq!(g.population(), 0);
}

#[test]
fn banded_step_matches_row_order_step() {
    let mut a = Grid::with_wrap(9, 7, true);
    for &(x, y) in &[(1, 1), (2, 1), (3, 1), (4, 2), (0, 5), (8, 6), (5, 5), (6, 5), (7, 5), (0, 0)] {
        a.set(x, y, true);
    }
    for bands in [0usize, 1, 2, 3, 4, 7, 50] {
        let mut b = a.clone();
        let mut c = a.clone();
        let s1 = b.step_with_bands(&Rule::conway(), bands);
        let s2 = c.step_with_sequential(&Rule::conway());
        assert_eq!(s1, s2, "bands {bands}");
        assert_eq!(b.cells, c.cells);
        assert_eq!(b.ages, c.ages);
    }
}

#[test]
fn one_band_of_rows_is_its_slice_of_the_step() {
    let mut g = Grid::new(5, 5);
    g.set(1, 2, true);
    g.set(2, 2, true);
    g.set(3, 2, true);
    // Rows 1..3 of the next blinker phase: (2, 1) and (2, 2) live, both born
    // or surviving; (1, 2) and (3, 2) die.
    let (cells, ages, stats) = g.life_rows(&Rule::conway(), 1, 3);
    assert_eq!(cells, vec![0, 0, 1, 0, 0, 0, 0, 1, 0, 0]);
    assert_eq!(ages, vec![0, 0, 1, 0, 0, 0, 0, 2, 0, 0]);
    assert_eq!((stats.births, stats.deaths), (1, 2));
    let (none, _, _) = g.life_rows(&Rule::conway(), 4, 4);
    assert!(none.is_empty());
}

#[test]
fn banded_brain_step_matches_row_order_step() {
    let mut a = Grid::with_states(6, 5, true, 3);
    a.set_state(1, 2, LIVE);
    a.set_state(3, 2, LIVE);
    a.set_state(4, 4, REFRACTORY);
    let mut b = a.clone();
    let s1 = a.step_brians_brain_bands(2);
    let s2 = b.step_brians_brain_sequential();
    assert_eq!(s1, s2);
    assert_eq!(a.cells, b.cells);
    assert_eq!(a.ages, b.ages);
    // Now (2, 1), (2, 2), (2, 3) fire and (1, 2), (3, 2) are refractory: in
    // the next row 2 the refractory cells die and (2, 2) becomes refractory,
    // one step older (age 2).
    let (band, ages, stats) = b.brain_rows(2, 3);
    assert_eq!(band, vec![DEAD, DEAD, REFRACTORY, DEAD, DEAD, DEAD]);
    assert_eq!(ages, vec![0, 0, 2, 0, 0, 0]);
    assert_eq!((stats.births, stats.deaths), (0, 2));
}

/// Deterministic xorshift fill for the band tests: a value in `[0, 1)`.
fn next_unit(state: &mut u64) -> f64 {
    let mut x = *state;
    x ^= x << 13;
    x ^= x >> 7;
    x ^= x << 17;
    *state = x;
    (x >> 11) as f64 / (1u64 << 53) as f64
}

#[test]
fn parallel_matches_sequential() {
    let w = 200;
    let h = 100;
    let mut rng: u64 = 0xBEEF_CAFE;
    let mut seq = Grid::new(w, h);
    for c in seq.cells.iter_mut() {
        *c = if next_unit(&mut rng) < 0.3 { 1 } else { 0 };
    }
    seq.sync_ages_from_cells();
    let mut par = seq.clone();

    for _ in 0..5 {
        let s1 = seq.step_with_sequential(&Rule::conway());
        let s2 = par.step_with_bands(&Rule::conway(), 8);
        assert_eq!(s1, s2, "step stats differ");
        assert_eq!(seq.cells, par.cells, "cells differ");
        assert_eq!(seq.ages, par.ages, "ages differ");
    }
}

#[test]
fn parallel_matches_sequential_finite() {
    let w = 160;
    let h = 130;
    let mut rng: u64 = 99;
    let mut seq = Grid::with_wrap(w, h, false);
    for c in seq.cells.iter_mut() {
        *c = if next_unit(&mut rng) < 0.25 { 1 } else { 0 };
    }
    seq.sync_ages_from_cells();
    let mut par = seq.clone();
    for _ in 0..3 {
        seq.step_with_sequential(&Rule::highlife());
        par.step_with_bands(&Rule::highlife(), 6);
        assert_eq!(seq.cells, par.cells);
    }
}

#[test]
fn brians_brain_parallel_matches_seq() {
    let w = 200;
    let h = 100;
    let mut rng: u64 = 0xBB;
    let mut seq = Grid::with_states(w, h, true, 3);
    for c in seq.cells.iter_mut() {
        let r = next_unit(&mut rng);
        *c = if r < 0.15 {
            1
        } else if r < 0.25 {
            2
        } else {
            0
        };
    }
    seq.sync_ages_from_cells();
    let mut par = seq.clone();
    for _ in 0..4 {
        let s1 = seq.step_brians_brain_sequential();
        let s2 = par.step_brians_brain_bands(8);
        assert_eq!(s1, s2);
        assert_eq!(seq.cells, par.cells);
    }
}

#[test]
fn brians_brain_ages_keep_counting_and_every_dying_cell_is_a_death() {
    let mut g = Grid::with_states(5, 5, false, 4);
    g.set_state(1, 1, LIVE);
    g.set_state(3, 3, 3);
    // Age the firing cell to 5 by hand.
    g.ages[6] = 5;
    let stats = g.step_brians_brain();
    assert_eq!(g.get_state(1, 1), REFRACTORY);
    assert_eq!(g.age_at(1, 1), 6);
    // The cell in state 3 dies and counts as a death.
    assert_eq!(g.get_state(3, 3), DEAD);
    assert_eq!((stats.births, stats.deaths), (0, 1));
}

#[test]
fn row_bands_cover_the_rows_in_order() {
    assert_eq!(row_bands(10, 3), vec![(0, 4), (4, 8), (8, 10)]);
    assert_eq!(row_bands(5, 0), vec![(0, 5)]);
    assert_eq!(row_bands(3, 8), vec![(0, 1), (1, 2), (2, 3)]);
    assert!(row_bands(0, 4).is_empty());
}

#[test]
fn joined_bands_are_the_whole_step() {
    let mut g = Grid::with_wrap(7, 9, true);
    for &(x, y) in &[(1, 1), (2, 1), (3, 1), (3, 0), (2, 5), (6, 8), (0, 8), (5, 4), (5, 5), (5, 6)] {
        g.set(x, y, true);
    }
    let parts: Vec<_> = row_bands(g.h, 4)
        .into_iter()
        .map(|(y0, y1)| g.life_rows(&Rule::conway(), y0, y1))
        .collect();
    let (cells, ages, stats) = join_bands(parts);
    let mut whole = g.clone();
    let s = whole.step_with_sequential(&Rule::conway());
    assert_eq!(cells, whole.cells);
    assert_eq!(ages, whole.ages);
    assert_eq!(stats, s);
    // Population after the step: before + births - deaths.
    assert_eq!(whole.population(), g.population() + s.births - s.deaths);
}
