use gol_rs::grid::Grid;
use gol_rs::transform::{flip_h, flip_h_in_place, flip_v, flip_v_in_place, rotate90, rotate90_in_place};

fn glider() -> Grid {
    let mut g = Grid::new(5, 5);
    // classic glider
    g.set(1, 0, true);
    g.set(2, 1, true);
    g.set(0, 2, true);
    g.set(1, 2, true);
    g.set(2, 2, true);
    g
}

#[test]
fn flip_h_mirrors() {
    let mut g = Grid::new(3, 2);
    g.set(0, 0, true);
    g.set(2, 1, true);
    let f = flip_h(&g);
    assert!(f.get(2, 0));
    assert!(f.get(0, 1));
    assert!(!f.get(0, 0));
    assert_eq!(f.population(), 2);
}

#[test]
fn flip_v_mirrors() {
    let mut g = Grid::new(2, 3);
    g.set(0, 0, true);
    g.set(1, 2, true);
    let f = flip_v(&g);
    assert!(f.get(0, 2));
    assert!(f.get(1, 0));
    assert_eq!(f.population(), 2);
}

#[test]
fn rotate90_swaps_dims() {
    let mut g = Grid::new(4, 2);
    g.set(0, 0, true);
    g.set(3, 1, true);
    let r = rotate90(&g);
    assert_eq!(r.w, 2);
    assert_eq!(r.h, 4);
    // (0,0) → (1, 0)  because h-1-y = 2-1-0 = 1, ny = x = 0
    assert!(r.get(1, 0));
    // (3,1) → (2-1-1, 3) = (0, 3)
    assert!(r.get(0, 3));
    assert_eq!(r.population(), 2);
}

#[test]
fn rotate90_four_times_identity() {
    let g = glider();
    let r = rotate90(&rotate90(&rotate90(&rotate90(&g))));
    assert_eq!(r.w, g.w);
    assert_eq!(r.h, g.h);
    assert_eq!(r.cells, g.cells);
}

#[test]
fn flip_h_twice_identity() {
    let g = glider();
    let f = flip_h(&flip_h(&g));
    assert_eq!(f.cells, g.cells);
}

#[test]
fn preserves_wrap() {
    let mut g = Grid::with_wrap(4, 4, false);
    g.set(1, 1, true);
    assert!(!rotate90(&g).wrap);
    assert!(!flip_h(&g).wrap);
    assert!(!flip_v(&g).wrap);
}

#[test]
fn preserves_multistate() {
    let mut g = Grid::with_states(4, 4, true, 3);
    g.set_state(1, 1, 2);
    let r = rotate90(&g);
    assert_eq!(r.states, 3);
    assert_eq!(r.get_state(2, 1), 2); // (1,1) → (4-1-1, 1) = (2,1)
}

#[test]
fn flip_v_twice_identity_and_in_place() {
    let g = glider();
    assert_eq!(flip_v(&flip_v(&g)).cells, g.cells);
    let mut a = glider();
    rotate90_in_place(&mut a);
    assert_eq!(a.cells, rotate90(&g).cells);
    flip_h_in_place(&mut a);
    flip_v_in_place(&mut a);
    assert_eq!(a.population(), 5);
}
