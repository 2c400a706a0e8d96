use gol_rs::grid::Grid;
use gol_rs::history::{hash_grid, CycleCheck, History};
use gol_rs::rule::Rule;

#[test]
fn hash_deterministic() {
    let mut g = Grid::new(5, 5);
    g.set(1, 2, true);
    g.set(2, 2, true);
    g.set(3, 2, true);
    let h1 = hash_grid(&g);
    let h2 = hash_grid(&g);
    assert_eq!(h1, h2);
}

#[test]
fn hash_differs_for_different_patterns() {
    let mut a = Grid::new(5, 5);
    a.set(2, 2, true);
    let mut b = Grid::new(5, 5);
    b.set(2, 3, true);
    assert_ne!(hash_grid(&a), hash_grid(&b));
}

#[test]
fn history_blinker_period_2() {
    let mut g = Grid::new(5, 5);
    g.set(1, 2, true);
    g.set(2, 2, true);
    g.set(3, 2, true);

    let mut hist = History::new(64);
    // gen 0
    assert_eq!(hist.observe(&g, 0), CycleCheck::Novel);
    g.step_with(&Rule::conway());
    // gen 1 — vertical
    assert_eq!(hist.observe(&g, 1), CycleCheck::Novel);
    g.step_with(&Rule::conway());
    // gen 2 — back to horizontal → period 2
    match hist.observe(&g, 2) {
        CycleCheck::Cycle { period } => assert_eq!(period, 2),
        CycleCheck::Novel => panic!("expected period-2 cycle"),
    }
}

#[test]
fn block_period_1_stable() {
    let mut g = Grid::new(4, 4);
    g.set(1, 1, true);
    g.set(2, 1, true);
    g.set(1, 2, true);
    g.set(2, 2, true);

    let mut hist = History::new(16);
    assert_eq!(hist.observe(&g, 0), CycleCheck::Novel);
    g.step_with(&Rule::conway());
    match hist.observe(&g, 1) {
        CycleCheck::Cycle { period } => assert_eq!(period, 1),
        CycleCheck::Novel => panic!("still life should be period 1"),
    }
}

#[test]
fn empty_is_stable() {
    let mut g = Grid::new(4, 4);
    let mut hist = History::new(8);
    hist.observe(&g, 0);
    g.step_with(&Rule::conway());
    match hist.observe(&g, 1) {
        CycleCheck::Cycle { period } => assert_eq!(period, 1),
        CycleCheck::Novel => panic!("empty should stay empty (period 1)"),
    }
}

#[test]
fn history_window_is_bounded() {
    let mut hist = History::new(2);
    assert!(hist.is_empty());
    let mut g = Grid::new(8, 1);
    for i in 0..5 {
        g.set(i, 0, true);
        assert_eq!(hist.observe(&g, i as u64), CycleCheck::Novel);
    }
    assert_eq!(hist.len(), 2);
}

#[test]
fn window_never_exceeds_its_capacity() {
    let mut h = History::new(0);
    let mut a = Grid::new(4, 4);
    for gen in 0..5u64 {
        a.set((gen % 4) as usize, 0, true);
        let _ = h.observe(&a, gen);
        assert!(h.len() <= 1);
    }
    let mut h3 = History::new(3);
    let mut b = Grid::new(4, 4);
    for gen in 0..8u64 {
        b.set((gen % 4) as usize, (gen / 4) as usize, true);
        let _ = h3.observe(&b, gen);
        assert!(h3.len() <= 3);
    }
    assert_eq!(h3.len(), 3);
}
