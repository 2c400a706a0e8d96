use gol_rs::grid::Grid;
use gol_rs::patterns::{dump_ascii, dump_rle, load_rle_into, pattern_names, seed_pattern, to_rle};

#[test]
fn pattern_list_contains_expected() {
    let joined = pattern_names().join(" ");
    for name in [
        "random",
        "glider",
        "blinker",
        "toad",
        "beacon",
        "lwss",
        "mwss",
        "hwss",
        "rpentomino",
        "acorn",
        "diehard",
        "pulsar",
        "gosper",
        "spaceship",
        "pentadecathlon",
        "glider-pair",
        "infinite1",
    ] {
        assert!(joined.contains(name), "missing {name}");
    }
}

#[test]
fn pentadecathlon_seeds() {
    let mut g = Grid::new(20, 12);
    seed_pattern(&mut g, "pentadecathlon", &[]).unwrap();
    assert!(g.population() > 0);
    // Should oscillate: not still after 1 step
    let gen0 = g.cells.clone();
    g.step();
    // may or may not equal gen0 depending on phase — just ensure it runs
    let _ = gen0;
    assert!(g.population() > 0);
}

#[test]
fn glider_pair_seeds() {
    let mut g = Grid::new(20, 12);
    seed_pattern(&mut g, "glider-pair", &[]).unwrap();
    assert_eq!(g.population(), 10); // two gliders × 5
}

#[test]
fn toad_period_2() {
    let mut g = Grid::new(8, 8);
    seed_pattern(&mut g, "toad", &[]).unwrap();
    let gen0 = g.cells.clone();
    g.step();
    let gen1 = g.cells.clone();
    assert_ne!(gen0, gen1);
    g.step();
    assert_eq!(g.cells, gen0);
}

#[test]
fn patterns_blinker_period_2() {
    let mut g = Grid::new(9, 9);
    seed_pattern(&mut g, "blinker", &[]).unwrap();
    let gen0 = g.cells.clone();
    g.step();
    assert_ne!(g.cells, gen0);
    g.step();
    assert_eq!(g.cells, gen0);
}

#[test]
fn block_still_via_pattern() {
    let mut g = Grid::new(8, 8);
    seed_pattern(&mut g, "block", &[]).unwrap();
    let before = g.clone();
    g.step();
    assert_eq!(g, before);
    assert_eq!(g.population(), 4);
}

#[test]
fn beehive_still_via_pattern() {
    let mut g = Grid::new(10, 10);
    seed_pattern(&mut g, "beehive", &[]).unwrap();
    let before = g.clone();
    g.step();
    assert_eq!(g, before);
    assert_eq!(g.population(), 6);
}

#[test]
fn spaceship_alias_glider() {
    let mut a = Grid::new(10, 10);
    let mut b = Grid::new(10, 10);
    seed_pattern(&mut a, "glider", &[]).unwrap();
    seed_pattern(&mut b, "spaceship", &[]).unwrap();
    assert_eq!(a.cells, b.cells);
}

#[test]
fn rle_roundtrip() {
    let mut g = Grid::new(20, 20);
    seed_pattern(&mut g, "glider", &[]).unwrap();
    let rle = to_rle(&g, "glider");
    assert!(rle.contains("x ="));
    assert!(rle.contains('o'));

    let mut g2 = Grid::new(20, 20);
    load_rle_into(&mut g2, &rle).unwrap();
    // Same live pattern up to translation — populations match and RLE re-encode equal shape
    assert_eq!(g.population(), g2.population());
    let rle2 = to_rle(&g2, "glider");
    // Compare decoded bounding bodies
    let mut g3 = Grid::new(20, 20);
    load_rle_into(&mut g3, &rle2).unwrap();
    assert_eq!(g2.cells, g3.cells);
}

#[test]
fn rle_blinker_decode() {
    let rle = "#N blinker\nx = 3, y = 1, rule = B3/S23\n3o!\n";
    let mut g = Grid::new(9, 9);
    load_rle_into(&mut g, rle).unwrap();
    assert_eq!(g.population(), 3);
    let before = g.cells.clone();
    g.step();
    assert_ne!(g.cells, before);
    g.step();
    assert_eq!(g.cells, before);
}

#[test]
fn rle_with_runs() {
    // 2o$2o! is a block
    let rle = "x = 2, y = 2, rule = B3/S23\n2o$2o!\n";
    let mut g = Grid::new(6, 6);
    load_rle_into(&mut g, rle).unwrap();
    assert_eq!(g.population(), 4);
    let before = g.clone();
    g.step();
    assert_eq!(g, before);
}

#[test]
fn random_seed_uses_the_given_fill() {
    let mut g = Grid::new(4, 4);
    let fill: Vec<bool> = (0..16).map(|i| i % 3 == 0).collect();
    seed_pattern(&mut g, "random", &fill).unwrap();
    assert_eq!(g.population(), 6);
    assert!(g.get(0, 0) && g.get(3, 0) && g.get(2, 1));
}

#[test]
fn unknown_pattern_is_an_error() {
    let mut g = Grid::new(8, 8);
    assert!(seed_pattern(&mut g, "no-such-pattern", &[]).is_err());
    assert_eq!(g.population(), 0);
}

#[test]
fn dumps_of_a_block() {
    let mut g = Grid::new(6, 6);
    seed_pattern(&mut g, "block", &[]).unwrap();
    let ascii = dump_ascii(&g);
    assert_eq!(ascii, "OO\nOO\n");
    assert_eq!(dump_ascii(&Grid::new(3, 3)), "(empty)\n");
    let rle = dump_rle(&g);
    assert!(rle.contains("x = 2, y = 2"));
    assert!(rle.contains("2o$2o!"));
}

#[test]
fn plain_text_loads() {
    let text = "#Life 1.06 comment\n.O.\n..O\nOOO\n";
    let mut g = Grid::new(10, 10);
    load_rle_into(&mut g, text).unwrap();
    assert_eq!(g.population(), 5);
}

#[test]
fn save_then_load_centres_the_live_cells() {
    // An L shape in the corner of a 10x10 grid: bounding box 3 wide, 2 high.
    let mut g = Grid::new(10, 10);
    g.set(7, 8, true);
    g.set(7, 9, true);
    g.set(8, 9, true);
    g.set(9, 9, true);
    let text = to_rle(&g, "corner");
    assert_eq!(text, "#N corner\n#O gol-rs\nx = 3, y = 2, rule = B3/S23\no$3o!\n");
    // Loaded into a 7x6 grid: offset ((7 - 3) / 2, (6 - 2) / 2) = (2, 2).
    let mut g2 = Grid::new(7, 6);
    g2.set(0, 0, true);
    load_rle_into(&mut g2, &text).unwrap();
    assert_eq!(g2.population(), 4);
    for y in 0..6 {
        for x in 0..7 {
            let expected = (x, y) == (2, 2) || (y == 3 && (2..=4).contains(&x));
            assert_eq!(g2.get(x, y), expected, "cell ({x}, {y})");
        }
    }
}

#[test]
fn save_then_load_of_an_empty_grid_clears() {
    let g = Grid::new(5, 5);
    let text = to_rle(&g, "empty");
    assert_eq!(text, "#N empty\n#O gol-rs\nx = 0, y = 0, rule = B3/S23\n!\n");
    let mut g2 = Grid::new(4, 4);
    g2.set(1, 1, true);
    load_rle_into(&mut g2, &text).unwrap();
    assert_eq!(g2.population(), 0);
}

#[test]
fn loading_into_a_grid_without_cells() {
    let mut g = Grid::new(0, 3);
    assert_eq!(
        load_rle_into(&mut g, "x = 2, y = 1\n2o!\n"),
        Err("pattern 2x1 does not fit in grid 0x3".to_string())
    );
    assert_eq!(load_rle_into(&mut g, "#Life 1.05\n..\n"), Ok(()));
    assert_eq!(g.population(), 0);
}
