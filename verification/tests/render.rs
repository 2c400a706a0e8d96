use gol_rs::grid::{Grid, StepStats};
use gol_rs::render::{render_frame, write_ppm_p3, write_ppm_p6, CursorGuard, RenderOpts, Style};
use gol_rs::theme::Theme;

fn body_only(style: Style, color: bool, age_heat: bool, theme: Theme) -> RenderOpts {
    RenderOpts {
        style,
        color,
        show_stats: false,
        age_heat,
        theme,
        ..Default::default()
    }
}

#[test]
fn style_parse() {
    assert_eq!(Style::parse("block").unwrap(), Style::Block);
    assert_eq!(Style::parse("BRAILLE").unwrap(), Style::Braille);
    assert_eq!(Style::parse("dots").unwrap(), Style::Dots);
    assert!(Style::parse("emoji").is_err());
}

#[test]
fn braille_renders_something() {
    let mut g = Grid::new(4, 4);
    g.set(0, 0, true);
    g.set(1, 0, true);
    let opts = RenderOpts {
        color: false,
        age_heat: false,
        style: Style::Braille,
        show_stats: false,
        ..Default::default()
    };
    let s = render_frame(&g, 0, None, &opts);
    assert!(
        s.contains('\u{2800}') || s.chars().any(|c| ('\u{2801}'..='\u{28FF}').contains(&c))
    );
}

#[test]
fn age_color_ramps() {
    let t = Theme::classic();
    assert_eq!(t.age_color_256(1), 46);
    assert!(t.age_color_256(1) != t.age_color_256(50));
    assert!(t.age_color_256(200) != t.age_color_256(1));
}

#[test]
fn age_heat_block_emits_256_color() {
    let mut g = Grid::new(3, 1);
    g.set(0, 0, true);
    g.set(1, 0, true);
    g.ages[0] = 1;
    g.ages[1] = 100;
    let opts = body_only(Style::Block, true, true, Theme::classic());
    let s = render_frame(&g, 0, None, &opts);
    assert!(s.contains("\x1b[38;5;"), "expected 256-color SGR: {s:?}");
}

#[test]
fn theme_live_color_in_block() {
    let mut g = Grid::new(2, 1);
    g.set(0, 0, true);
    let opts = body_only(Style::Block, true, false, Theme::fire());
    let s = render_frame(&g, 0, None, &opts);
    assert!(s.contains("\x1b[91m"), "expected fire live SGR: {s:?}");
}

#[test]
fn ppm_p6_header_and_size() {
    let mut g = Grid::new(2, 2);
    g.set(0, 0, true);
    let buf = write_ppm_p6(&g, Theme::classic(), false);
    // P6\n2 2\n255\n + 2*2*3 bytes
    assert!(buf.starts_with(b"P6\n"));
    let body_start = {
        // find third newline
        let mut count = 0;
        let mut idx = 0;
        for (i, &b) in buf.iter().enumerate() {
            if b == b'\n' {
                count += 1;
                if count == 3 {
                    idx = i + 1;
                    break;
                }
            }
        }
        idx
    };
    assert_eq!(buf.len() - body_start, 2 * 2 * 3);
    // live pixel at (0,0) is classic green-ish
    assert_eq!(
        &buf[body_start..body_start + 3],
        &[
            Theme::classic().live_rgb.0,
            Theme::classic().live_rgb.1,
            Theme::classic().live_rgb.2
        ]
    );
}

#[test]
fn ppm_p3_ascii() {
    let mut g = Grid::new(1, 1);
    g.set(0, 0, true);
    let s = write_ppm_p3(&g, Theme::mono(), false);
    assert!(s.starts_with("P3\n"));
    assert!(s.contains("255"));
    assert!(s.contains("230 230 230"));
}

#[test]
fn plain_block_frame_exact() {
    let mut g = Grid::new(3, 1);
    g.set(1, 0, true);
    let opts = body_only(Style::Block, false, false, Theme::classic());
    assert_eq!(render_frame(&g, 0, None, &opts), "\x1b[H  \u{2588}\u{2588}  \x1b[K\n");
    let colored = body_only(Style::Block, true, false, Theme::classic());
    assert_eq!(
        render_frame(&g, 0, None, &colored),
        "\x1b[H  \x1b[32m\u{2588}\u{2588}\x1b[0m  \x1b[K\n"
    );
    let dots = body_only(Style::Dots, false, false, Theme::classic());
    assert_eq!(render_frame(&g, 0, None, &dots), "\x1b[H \u{b7} \x1b[K\n");
}

#[test]
fn header_line_plain() {
    let mut g = Grid::new(4, 4);
    g.set(1, 1, true);
    let opts = RenderOpts {
        color: false,
        style: Style::Dots,
        ..Default::default()
    };
    let s = render_frame(&g, 7, Some(StepStats { births: 2, deaths: 3 }), &opts);
    assert!(s.starts_with("\x1b[Hgol-rs  gen     7  pop     1  grid 4x4  +2/-3  (Ctrl-C to quit)\x1b[K\n"));
    let interactive = RenderOpts {
        color: false,
        status_extra: "interactive PAUSED".to_string(),
        ..Default::default()
    };
    let s = render_frame(&g, 0, None, &interactive);
    assert!(s.contains("  interactive PAUSED  (keys: spc . + - r t a w s p q)"));
}

#[test]
fn multistate_dots_and_ppm() {
    let mut g = Grid::with_states(2, 1, true, 3);
    g.set_state(0, 0, 1);
    g.set_state(1, 0, 2);
    let opts = body_only(Style::Dots, true, false, Theme::classic());
    let s = render_frame(&g, 0, None, &opts);
    assert_eq!(s, "\x1b[H\x1b[32m\u{b7}\x1b[0m\x1b[2;32m\u{b0}\x1b[0m\x1b[K\n");
    let ppm = write_ppm_p6(&g, Theme::classic(), false);
    let n = ppm.len();
    assert_eq!(&ppm[n - 6..], &[0, 220, 80, 0, 73, 26]);
}

#[test]
fn cursor_guard_restore_bytes() {
    assert_eq!(CursorGuard::new(true).restore_bytes(), b"\x1b[?25h\x1b[0m\n".to_vec());
    assert!(CursorGuard::new(false).restore_bytes().is_empty());
}
