use gol_rs::grid::Grid;
use gol_rs::rule::Rule;
use gol_rs::simulation::{Boundary, Cycle, CycleDetector, CycleKind, Simulation};

fn grid_with(w: usize, h: usize, cells: &[(usize, usize)]) -> Grid {
    let mut g = Grid::new(w, h);
    for &(x, y) in cells {
        g.set(x, y, true);
    }
    g
}

fn simulation(cells: &[(usize, usize)]) -> Simulation {
    Simulation::new(grid_with(7, 7, cells), Rule::conway(), Boundary::Finite)
}

#[test]
fn still_life_is_period_one_from_generation_zero() {
    let mut simulation = simulation(&[(2, 2), (3, 2), (2, 3), (3, 3)]);
    let mut detector = CycleDetector::new(10);
    assert_eq!(detector.observe(0, simulation.grid()), None);
    let stats = simulation.step();
    assert_eq!(stats.generation, 1);
    assert_eq!(
        detector.observe(1, simulation.grid()),
        Some(Cycle {
            first_generation: 0,
            repeated_generation: 1,
            period: 1,
            kind: CycleKind::Stable,
        })
    );
}

#[test]
fn blinker_is_period_two() {
    let mut simulation = simulation(&[(2, 3), (3, 3), (4, 3)]);
    let mut detector = CycleDetector::new(10);
    detector.observe(0, simulation.grid());
    simulation.step();
    assert_eq!(detector.observe(1, simulation.grid()), None);
    simulation.step();
    assert_eq!(detector.observe(2, simulation.grid()).unwrap().period, 2);
}

#[test]
fn detector_is_bounded() {
    let grid = Grid::new(2, 2);
    let mut detector = CycleDetector::new(0);
    assert_eq!(detector.observe(0, &grid), None);
    assert!(detector.is_saturated());
    assert_eq!(detector.tracked_states(), 0);
}

#[test]
fn detector_packs_states_and_honours_byte_budget() {
    let grid = Grid::new(65, 1);
    let mut detector = CycleDetector::with_limits(10, 16);
    assert_eq!(detector.observe(0, &grid), None);
    assert_eq!(detector.tracked_states(), 1);
    assert_eq!(detector.tracked_bytes(), 16);

    let other = grid_with(65, 1, &[(0, 0)]);
    assert_eq!(detector.observe(1, &other), None);
    assert!(detector.is_saturated());
    assert_eq!(detector.tracked_states(), 1);
    assert_eq!(detector.tracked_bytes(), 16);
}

#[test]
fn dimensions_are_part_of_cycle_identity() {
    let wide = Grid::new(3, 2);
    let tall = Grid::new(2, 3);
    let mut detector = CycleDetector::new(10);
    assert_eq!(detector.observe(0, &wide), None);
    assert_eq!(detector.observe(1, &tall), None);
}

#[test]
fn repeated_observations_keep_the_true_local_period() {
    let grid = Grid::new(2, 2);
    let mut detector = CycleDetector::new(10);
    detector.observe(0, &grid);
    assert_eq!(detector.observe(1, &grid).unwrap().period, 1);
    assert_eq!(detector.observe(2, &grid).unwrap().period, 1);
}

#[test]
fn step_reports_transitions() {
    let mut sim = simulation(&[(2, 3), (3, 3), (4, 3)]);
    let s = sim.step();
    assert_eq!(s.births, 2);
    assert_eq!(s.deaths, 2);
    assert_eq!(s.population, 3);
    assert_eq!(s.survivors, 1);
    assert_eq!(s.changed(), 4);
    assert_eq!(sim.generation(), 1);
    assert_eq!(sim.boundary(), Boundary::Finite);
    assert_eq!(CycleKind::Oscillator.label(), "oscillator");
}

#[test]
fn detector_tells_firing_from_refractory() {
    let mut d = CycleDetector::new(16);
    let mut g = Grid::with_states(4, 4, true, 3);
    g.set_state(1, 1, 1);
    assert_eq!(d.observe(0, &g), None);
    g.set_state(1, 1, 2);
    // Same liveness, different state: not a repeat.
    assert_eq!(d.observe(1, &g), None);
    g.set_state(1, 1, 1);
    let c = d.observe(2, &g).unwrap();
    assert_eq!((c.first_generation, c.period), (0, 2));
}
