use gol_rs::rule::{CaRule, Rule};

#[test]
fn parse_conway_named() {
    assert_eq!(Rule::parse("conway").unwrap(), Rule::conway());
    assert_eq!(Rule::parse("life").unwrap(), Rule::conway());
    assert_eq!(Rule::parse("B3/S23").unwrap(), Rule::conway());
    assert_eq!(Rule::parse("b3/s23").unwrap(), Rule::conway());
    assert_eq!(Rule::parse("23/3").unwrap(), Rule::conway());
}

#[test]
fn parse_highlife() {
    let r = Rule::parse("highlife").unwrap();
    assert_eq!(r, Rule::highlife());
    assert!(r.births(3));
    assert!(r.births(6));
    assert!(!r.births(2));
    assert!(r.survives(2));
    assert!(r.survives(3));
    assert!(!r.survives(4));
}

#[test]
fn parse_seeds() {
    let r = Rule::parse("seeds").unwrap();
    assert!(r.births(2));
    assert!(!r.survives(2));
    assert!(!r.survives(3));
    assert_eq!(r.survive, 0);
}

#[test]
fn parse_daynight_maze_replicator_lwd() {
    assert_eq!(Rule::parse("daynight").unwrap(), Rule::daynight());
    assert_eq!(Rule::parse("maze").unwrap(), Rule::maze());
    assert_eq!(Rule::parse("replicator").unwrap(), Rule::replicator());
    assert_eq!(Rule::parse("lwd").unwrap(), Rule::life_without_death());
    assert_eq!(
        Rule::parse("life-without-death").unwrap(),
        Rule::life_without_death()
    );
}

#[test]
fn parse_sb_form() {
    // 23/3 = S23/B3
    let r = Rule::parse("23/3").unwrap();
    assert_eq!(r, Rule::conway());
    // 23/36 = HighLife in S/B form
    let r = Rule::parse("23/36").unwrap();
    assert_eq!(r, Rule::highlife());
}

#[test]
fn parse_custom_bs() {
    let r = Rule::parse("B1357/S1357").unwrap();
    assert_eq!(r, Rule::replicator());
    assert_eq!(r.to_string_bs(), "B1357/S1357");
}

#[test]
fn parse_empty_survive() {
    let r = Rule::parse("B2/S").unwrap();
    assert_eq!(r, Rule::seeds());
    assert_eq!(r.to_string_bs(), "B2/S");
}

#[test]
fn next_alive_conway() {
    let r = Rule::conway();
    assert!(!r.next_alive(false, 2));
    assert!(r.next_alive(false, 3));
    assert!(r.next_alive(true, 2));
    assert!(r.next_alive(true, 3));
    assert!(!r.next_alive(true, 1));
    assert!(!r.next_alive(true, 4));
}

#[test]
fn rule_highlife_births_on_6() {
    let r = Rule::highlife();
    assert!(r.births(6));
    assert!(!Rule::conway().births(6));
}

#[test]
fn unknown_rule_errors() {
    assert!(Rule::parse("foobar").is_err());
    assert!(Rule::parse("").is_err());
}

#[test]
fn default_is_conway() {
    assert_eq!(Rule::default(), Rule::conway());
}

#[test]
fn parse_brians_brain() {
    assert_eq!(CaRule::parse("brian").unwrap(), CaRule::BriansBrain);
    assert_eq!(CaRule::parse("brains").unwrap(), CaRule::BriansBrain);
    assert_eq!(CaRule::parse("BB").unwrap(), CaRule::BriansBrain);
    assert!(CaRule::parse("brian").unwrap().is_multistate());
    assert_eq!(CaRule::parse("brian").unwrap().states(), 3);
    assert_eq!(
        CaRule::parse("conway").unwrap(),
        CaRule::LifeLike(Rule::conway())
    );
    assert!(!CaRule::parse("conway").unwrap().is_multistate());
}

#[test]
fn rule_text_round_trips() {
    for r in [
        Rule::conway(),
        Rule::highlife(),
        Rule::seeds(),
        Rule::daynight(),
        Rule::maze(),
        Rule::replicator(),
        Rule::life_without_death(),
    ] {
        assert_eq!(Rule::parse(&r.to_string_bs()).unwrap(), r);
    }
}

#[test]
fn rule_error_messages_and_names() {
    assert_eq!(Rule::parse("").unwrap_err(), "empty rule");
    assert_eq!(Rule::conway().display_name(), "conway (B3/S23)");
    assert_eq!(CaRule::BriansBrain.display_name(), "brian (Brian's Brain)");
    assert_eq!(CaRule::BriansBrain.to_string_bs(), "BB");
    assert_eq!(Rule::from_lists(&[3], &[2, 3]).unwrap(), Rule::conway());
    assert!(Rule::from_lists(&[9], &[]).is_err());
}

#[test]
fn b2_s0_reads_as_birth_on_two_and_survival_on_zero() {
    let r = Rule::parse("B2/S0").unwrap();
    assert_eq!(r, Rule { birth: 1 << 2, survive: 1 << 0 });
    assert_ne!(r, Rule::seeds());
    assert_eq!(Rule::parse(&r.to_string_bs()).unwrap(), r);
    assert_eq!(Rule::parse("b2/s").unwrap(), Rule::seeds());
}
