use gol_rs::grid::Grid;
use gol_rs::pattern::{builtin_pattern, catalogue, Pattern, PatternError, PlacementError};

#[test]
fn catalogue_metadata_matches_patterns() {
    for info in catalogue() {
        let pattern = builtin_pattern(info.name).unwrap();
        assert_eq!(pattern.width(), info.width, "{} width", info.name);
        assert_eq!(pattern.height(), info.height, "{} height", info.name);
        assert_eq!(
            pattern.population(),
            info.population,
            "{} population",
            info.name
        );
    }
}

#[test]
fn aliases_are_supported() {
    assert_eq!(
        builtin_pattern("GOSPER"),
        builtin_pattern("gosper_glider_gun")
    );
    assert_eq!(
        builtin_pattern("rpentomino"),
        builtin_pattern("r-pentomino")
    );
}

#[test]
fn placement_is_atomic_when_pattern_does_not_fit() {
    let pattern = builtin_pattern("glider").unwrap();
    let mut grid = Grid::new(3, 3);
    assert!(grid.place_pattern(&pattern, 1, 0).is_err());
    assert!(grid.is_empty());
}

#[test]
fn placement_checks_offset_overflow() {
    let pattern = builtin_pattern("block").unwrap();
    let mut grid = Grid::new(4, 4);
    assert_eq!(
        grid.place_pattern(&pattern, usize::MAX, 0),
        Err(PlacementError::OffsetOverflow)
    );
}

#[test]
fn huge_non_overflowing_allocation_returns_error() {
    assert!(Pattern::from_live_cells(usize::MAX, 1, &[]).is_err());
}

#[test]
fn placement_draws_the_pattern_at_the_offset() {
    let pattern = builtin_pattern("block").unwrap();
    let mut grid = Grid::new(5, 5);
    assert_eq!(grid.place_pattern(&pattern, 2, 3), Ok(()));
    assert_eq!(grid.population(), 4);
    assert!(grid.get(2, 3) && grid.get(3, 3) && grid.get(2, 4) && grid.get(3, 4));
    assert_eq!(
        grid.place_pattern(&pattern, 4, 0),
        Err(PlacementError::OutOfBounds)
    );
}

#[test]
fn from_live_cells_rejects_cells_outside() {
    let err = Pattern::from_live_cells(2, 2, &[(2, 0)]).unwrap_err();
    assert_eq!(err, PatternError::CoordinateOutOfBounds { x: 2, y: 0, width: 2, height: 2 });
    let p = Pattern::from_live_cells(3, 2, &[(0, 0), (2, 1), (0, 0)]).unwrap();
    assert_eq!(p.population(), 2);
    assert_eq!(p.get(2, 1), Some(true));
    assert_eq!(p.get(1, 1), Some(false));
    assert_eq!(p.get(3, 0), None);
}

#[test]
fn more_cells_than_memory_can_hold_is_an_allocation_failure() {
    assert_eq!(
        Pattern::from_live_cells(usize::MAX, 1, &[]),
        Err(PatternError::AllocationFailed { width: usize::MAX, height: 1 })
    );
    let w = (isize::MAX as usize) / 2 + 1;
    assert_eq!(
        Pattern::from_live_cells(w, 2, &[]),
        Err(PatternError::AllocationFailed { width: w, height: 2 })
    );
}

#[test]
fn placing_cells_on_a_dead_rectangle() {
    let p = Pattern::place_live_cells(vec![false; 6], 3, 2, &[(0, 0), (2, 1)]).unwrap();
    assert_eq!((p.width(), p.height()), (3, 2));
    assert_eq!(p.get(0, 0), Some(true));
    assert_eq!(p.get(2, 1), Some(true));
    assert_eq!(p.get(1, 0), Some(false));
    assert_eq!(
        Pattern::place_live_cells(vec![false; 6], 3, 2, &[(0, 0), (3, 0), (0, 5)]),
        Err(PatternError::CoordinateOutOfBounds { x: 3, y: 0, width: 3, height: 2 })
    );
}
