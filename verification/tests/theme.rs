use gol_rs::theme::{theme_names, Theme};

#[test]
fn parse_themes() {
    assert_eq!(Theme::parse("classic").unwrap().name, "classic");
    assert_eq!(Theme::parse("NEON").unwrap().name, "neon");
    assert_eq!(Theme::parse("fire").unwrap().name, "fire");
    assert_eq!(Theme::parse("ocean").unwrap().name, "ocean");
    assert_eq!(Theme::parse("mono").unwrap().name, "mono");
    assert!(Theme::parse("rainbow").is_err());
}

#[test]
fn cycle_all_themes() {
    let mut t = Theme::classic();
    let mut names = vec![t.name];
    for _ in 0..theme_names().len() {
        t = t.next();
        names.push(t.name);
    }
    // after full cycle back to classic
    assert_eq!(t.name, "classic");
    assert_eq!(names.len(), theme_names().len() + 1);
}

#[test]
fn age_colors_differ_by_theme() {
    assert_ne!(
        Theme::classic().age_color_256(1),
        Theme::fire().age_color_256(1)
    );
    assert_ne!(Theme::classic().age_rgb(10), Theme::ocean().age_rgb(10));
}

#[test]
fn aliases_errors_and_sequences() {
    assert_eq!(Theme::parse("  Grey ").unwrap(), Theme::mono());
    assert_eq!(Theme::parse("sea").unwrap(), Theme::ocean());
    assert_eq!(
        Theme::parse("Rainbow").unwrap_err(),
        "unknown theme: rainbow (try: classic, neon, fire, ocean, mono)"
    );
    assert_eq!(Theme::default(), Theme::classic());
    assert_eq!(Theme::fire().live_ansi(), "\x1b[91m");
    assert_eq!(Theme::neon().title_ansi(), "\x1b[1;95m");
    assert_eq!(Theme::mono().accent_ansi(), "\x1b[90m");
    assert_eq!(Theme::fire().pop_ansi(), "\x1b[33m");
    assert_eq!(Theme::mono().age_rgb(3), (200, 200, 200));
    assert_eq!(Theme::neon().age_color_256(500), 21);
    assert_eq!(Theme::all().len(), 5);
    assert_eq!(Theme::all()[3], Theme::ocean());
}
