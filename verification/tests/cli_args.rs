use gol_rs::cli::{parse_args, parse_uint, validate, IntFault};
use gol_rs::render::Style;
use gol_rs::rule::{CaRule, Rule};
use gol_rs::theme::Theme;

fn args(list: &[&str]) -> Vec<String> {
    list.iter().map(|s| s.to_string()).collect()
}

#[test]
fn defaults_without_arguments() {
    let c = parse_args(&[], 42).unwrap();
    assert_eq!((c.w, c.h, c.gens, c.delay_ms, c.seed), (60, 30, 500, 80, 42));
    assert_eq!(c.pattern, "random");
    assert!(c.density.is_none());
    assert_eq!(c.style, Style::Block);
    assert_eq!(c.rule, CaRule::LifeLike(Rule::conway()));
    assert!(!c.rule_explicit);
    assert_eq!(c.theme, Theme::classic());
    assert!(c.wrap && c.color && !c.quiet && !c.help);
    assert_eq!(c.record_every, 1);
    assert_eq!(validate(&c, true), Ok(()));
}

#[test]
fn values_and_flags() {
    let c = parse_args(
        &args(&[
            "-W", "80", "--height", "25", "-g", "+7", "--rule", "highlife", "--theme", "NEON",
            "--style", "dots", "--finite", "--age", "--dump", "--quiet", "--density", "0.5",
            "--save", "out.rle", "--save-every", "3",
        ]),
        1,
    )
    .unwrap();
    assert_eq!((c.w, c.h, c.gens), (80, 25, 7));
    assert_eq!(c.rule, CaRule::LifeLike(Rule::highlife()));
    assert!(c.rule_explicit);
    assert_eq!(c.theme, Theme::neon());
    assert_eq!(c.style, Style::Dots);
    assert!(!c.wrap && c.age_heat && c.quiet);
    assert_eq!(c.dump.as_deref(), Some("rle"));
    assert_eq!(c.density.as_deref(), Some("0.5"));
    assert_eq!(c.save.as_deref(), Some("out.rle"));
    assert_eq!(c.save_every, Some(3));
    assert_eq!(validate(&c, true), Ok(()));
    let d = parse_args(&args(&["--dump", "ascii"]), 1).unwrap();
    assert_eq!(d.dump.as_deref(), Some("ascii"));
}

#[test]
fn argument_errors() {
    assert_eq!(
        parse_args(&args(&["--width"]), 0).err().unwrap(),
        "--width requires a value"
    );
    assert_eq!(
        parse_args(&args(&["--width", "x1"]), 0).err().unwrap(),
        "--width: invalid digit found in string"
    );
    assert_eq!(
        parse_args(&args(&["-g", ""]), 0).err().unwrap(),
        "--gens: cannot parse integer from empty string"
    );
    assert_eq!(
        parse_args(&args(&["--seed", "99999999999999999999"]), 0).err().unwrap(),
        "--seed: number too large to fit in target type"
    );
    assert_eq!(
        parse_args(&args(&["--density", "abc"]), 0).err().unwrap(),
        "--density: invalid float literal"
    );
    assert_eq!(
        parse_args(&args(&["--bogus"]), 0).err().unwrap(),
        "unknown argument: --bogus"
    );
    assert_eq!(
        parse_args(&args(&["--style", "emoji"]), 0).err().unwrap(),
        "unknown style: emoji (expected block|braille|dots)"
    );
    assert!(parse_args(&args(&["--rule", "nope"]), 0).is_err());
    let h = parse_args(&args(&["-h", "--bogus"]), 0).unwrap();
    assert!(h.help);
}

#[test]
fn validation_order() {
    let small = parse_args(&args(&["-W", "3"]), 0).unwrap();
    assert_eq!(validate(&small, true).unwrap_err(), "grid too small (min 4x4)");
    let ok = parse_args(&[], 0).unwrap();
    assert_eq!(validate(&ok, false).unwrap_err(), "density must be between 0.0 and 1.0");
    let se = parse_args(&args(&["--save-every", "2"]), 0).unwrap();
    assert_eq!(validate(&se, true).unwrap_err(), "--save-every requires --save PATH");
    let se0 = parse_args(&args(&["--save-every", "0", "--save", "a"]), 0).unwrap();
    assert_eq!(validate(&se0, true).unwrap_err(), "--save-every must be >= 1");
    let re = parse_args(&args(&["--record-every", "0"]), 0).unwrap();
    assert_eq!(validate(&re, true).unwrap_err(), "--record-every must be >= 1");
    let dump = parse_args(&args(&["--dump", "png"]), 0).unwrap();
    assert_eq!(validate(&dump, true).unwrap_err(), "--dump format must be rle or ascii");
    let iq = parse_args(&args(&["-i", "--quiet"]), 0).unwrap();
    assert_eq!(validate(&iq, true).unwrap_err(), "--interactive cannot be combined with --quiet");
    let bi = parse_args(&args(&["--bench", "-i"]), 0).unwrap();
    assert_eq!(validate(&bi, true).unwrap_err(), "--bench cannot be combined with --interactive");
    let list = parse_args(&args(&["--list-rules", "-W", "1"]), 0).unwrap();
    assert_eq!(validate(&list, false), Ok(()));
}

#[test]
fn unsigned_parsing() {
    assert_eq!(parse_uint(&['+', '4', '2'], 100), Ok(42));
    assert_eq!(parse_uint(&['1', '0', '1'], 100), Err(IntFault::Overflow));
    assert_eq!(parse_uint(&['-', '1'], 100), Err(IntFault::InvalidDigit));
    assert_eq!(parse_uint(&['+'], 100), Err(IntFault::InvalidDigit));
    assert_eq!(parse_uint(&[], 100), Err(IntFault::Empty));
}

#[test]
fn float_texts() {
    for good in ["0.25", "1", ".5", "5.", "1e-3", "+1E5", "inf", "-NaN", "Infinity"] {
        assert!(parse_args(&args(&["--density", good]), 0).is_ok(), "{good}");
        assert!(good.parse::<f64>().is_ok());
    }
    for bad in ["", ".", "e5", "1e", "1.2.3", "0x1", "1,5"] {
        assert!(parse_args(&args(&["--density", bad]), 0).is_err(), "{bad}");
        assert!(bad.parse::<f64>().is_err());
    }
}
