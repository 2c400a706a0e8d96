use gol_rs::sparkline::sparkline;

#[test]
fn empty_and_zero_width() {
    assert_eq!(sparkline(&[], 40), "");
    assert_eq!(sparkline(&[1, 2, 3], 0), "");
}

#[test]
fn all_zero() {
    let s = sparkline(&[0, 0, 0, 0], 4);
    assert_eq!(s.chars().count(), 4);
    assert!(s.chars().all(|c| c == '▁'));
}

#[test]
fn flat_nonzero() {
    let s = sparkline(&[10, 10, 10], 3);
    assert_eq!(s.chars().count(), 3);
    // mid block for flat non-zero
    assert!(s.chars().all(|c| c == '▄' || c == '▅'));
}

#[test]
fn rising_uses_higher_blocks() {
    let s = sparkline(&[0, 1, 2, 3, 4, 5, 6, 7], 8);
    assert_eq!(s.chars().count(), 8);
    let chars: Vec<char> = s.chars().collect();
    assert_eq!(chars[0], '▁');
    assert_eq!(chars[7], '█');
}

#[test]
fn truncates_to_width() {
    let samples: Vec<usize> = (0..100).collect();
    let s = sparkline(&samples, 10);
    assert_eq!(s.chars().count(), 10);
    // last sample is 99 (max) → █
    assert_eq!(s.chars().last(), Some('█'));
}

#[test]
fn single_sample() {
    let s = sparkline(&[42], 1);
    assert_eq!(s.chars().count(), 1);
}

#[test]
fn exact_rounding() {
    assert_eq!(sparkline(&[0, 1, 2, 3, 4, 5, 6, 7], 8), "▁▂▃▄▅▆▇█");
    assert_eq!(sparkline(&[0, 10], 2), "▁█");
    assert_eq!(sparkline(&[0, 5, 10], 3), "▁▅█");
    assert_eq!(sparkline(&[10, 10, 10], 3), "▅▅▅");
}
