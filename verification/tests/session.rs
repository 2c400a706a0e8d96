use gol_rs::session::{due_at, gens_stop, keep_first_period, restart_tracking};
use gol_rs::grid::{Grid, StepStats};
use gol_rs::history::{CycleCheck, History};
use gol_rs::rule::{CaRule, Rule};
use gol_rs::session::{
    cycle_stop, done_status, handle_key, poll_timeout, report_period, stats_header, stats_row,
    status_extra, step_grid, stop_note, summary_text, Controls, KeyAction, RunStats, StopReason,
};
use gol_rs::sparkline::sparkline;
use gol_rs::term::Key;
use gol_rs::theme::Theme;

#[test]
fn until_stable_stops_on_block() {
    let mut g = Grid::new(6, 6);
    g.set(2, 2, true);
    g.set(3, 2, true);
    g.set(2, 3, true);
    g.set(3, 3, true);

    let mut generation = 0u64;
    let max = 100u64;
    let mut stopped_stable = false;
    while generation < max {
        let prev = g.clone();
        g.step();
        generation += 1;
        if g.equals(&prev) {
            stopped_stable = true;
            break;
        }
    }
    assert!(stopped_stable);
    assert_eq!(generation, 1);
    assert_eq!(g.population(), 4);
}

#[test]
fn until_stable_dies_out() {
    let mut g = Grid::new(5, 5);
    g.set(2, 2, true);
    let mut generation = 0u64;
    let mut stopped = false;
    while generation < 50 {
        let prev = g.clone();
        g.step();
        generation += 1;
        if g.equals(&prev) {
            stopped = true;
            break;
        }
    }
    assert!(stopped);
    assert_eq!(g.population(), 0);
    assert_eq!(generation, 2);
}

#[test]
fn until_cycle_blinker_period_2() {
    let mut g = Grid::new(5, 5);
    g.set(1, 2, true);
    g.set(2, 2, true);
    g.set(3, 2, true);

    let mut hist = History::new(64);
    hist.observe(&g, 0);
    let mut generation = 0u64;
    let mut period_found = None;
    for _ in 0..10 {
        g.step_with(&Rule::conway());
        generation += 1;
        if let CycleCheck::Cycle { period } = hist.observe(&g, generation) {
            period_found = Some(period);
            break;
        }
    }
    assert_eq!(period_found, Some(2));
    assert_eq!(generation, 2);
}

#[test]
fn rule_parse_cli_style() {
    assert_eq!(
        CaRule::parse("conway").unwrap(),
        CaRule::LifeLike(Rule::conway())
    );
    assert_eq!(
        CaRule::parse("B3/S23").unwrap(),
        CaRule::LifeLike(Rule::conway())
    );
    assert_eq!(
        CaRule::parse("23/3").unwrap(),
        CaRule::LifeLike(Rule::conway())
    );
    assert!(CaRule::parse("highlife")
        .unwrap()
        .as_life_like()
        .unwrap()
        .births(6));
    assert_eq!(CaRule::parse("brian").unwrap(), CaRule::BriansBrain);
}

#[test]
fn run_stats_tracks_max_min() {
    let mut rs = RunStats::default();
    rs.observe_gen0(10);
    assert_eq!(rs.max_pop, 10);
    assert_eq!(rs.min_pop, 10);
    assert_eq!(rs.initial_pop, 10);
    rs.observe_step(
        1,
        15,
        StepStats {
            births: 5,
            deaths: 0,
        },
    );
    assert_eq!(rs.max_pop, 15);
    assert_eq!(rs.gen_at_max_pop, 1);
    assert_eq!(rs.min_pop, 15);
    rs.observe_step(
        2,
        8,
        StepStats {
            births: 0,
            deaths: 7,
        },
    );
    assert_eq!(rs.max_pop, 15);
    assert_eq!(rs.min_pop, 8);
    assert_eq!(rs.total_births, 5);
    assert_eq!(rs.total_deaths, 7);
    assert_eq!(rs.pop_samples.len(), 3);
    let s = sparkline(&rs.pop_samples, 3);
    assert_eq!(s.chars().count(), 3);
}

#[test]
fn step_grid_brians_brain() {
    let mut g = Grid::with_states(5, 5, true, 3);
    g.set_state(1, 2, 1);
    g.set_state(3, 2, 1);
    let stats = step_grid(&mut g, &CaRule::BriansBrain);
    assert!(stats.births >= 1);
    assert_eq!(g.get_state(2, 2), 1);
}

#[test]
fn stop_reasons_and_cycle_decisions() {
    assert_eq!(StopReason::MaxGens.label(), "max-gens");
    assert_eq!(StopReason::Stable.label(), "stable");
    assert_eq!(StopReason::Cycle { period: 15 }.label(), "cycle-p15");
    assert_eq!(StopReason::Quit.label(), "quit");
    assert_eq!(cycle_stop(true, false, 2), Some(StopReason::Cycle { period: 2 }));
    assert_eq!(cycle_stop(false, true, 1), Some(StopReason::Stable));
    assert_eq!(cycle_stop(false, true, 2), None);
    assert_eq!(cycle_stop(false, false, 1), None);
    assert_eq!(report_period(None, StopReason::Stable), Some(1));
    assert_eq!(report_period(Some(4), StopReason::Stable), Some(4));
    assert_eq!(report_period(None, StopReason::MaxGens), None);
}

#[test]
fn keys_change_controls() {
    let c = Controls {
        paused: false,
        delay_ms: 80,
        theme: Theme::classic(),
        age_heat: false,
        wrap: true,
    };
    let (c1, step, act) = handle_key(c, Some(Key::Space));
    assert!(c1.paused && !step && act == KeyAction::Nothing);
    let (c2, step, _) = handle_key(c1, Some(Key::Step));
    assert!(step && c2.paused);
    let (c3, _, _) = handle_key(c, Some(Key::Faster));
    assert_eq!(c3.delay_ms, 40);
    let (c4, _, _) = handle_key(Controls { delay_ms: 1, ..c }, Some(Key::Faster));
    assert_eq!(c4.delay_ms, 1);
    let (c5, _, _) = handle_key(Controls { delay_ms: 4000, ..c }, Some(Key::Slower));
    assert_eq!(c5.delay_ms, 5000);
    let (c6, step, _) = handle_key(c, Some(Key::Theme));
    assert!(step && c6.theme == Theme::neon());
    assert_eq!(handle_key(c, Some(Key::Quit)).2, KeyAction::Quit);
    assert_eq!(handle_key(c, Some(Key::Reseed)), (c, false, KeyAction::Reseed));
    assert_eq!(handle_key(c, None), (c, true, KeyAction::Nothing));
    assert_eq!(poll_timeout(true, 80), 50);
    assert_eq!(poll_timeout(false, 80), 80);
}

#[test]
fn status_and_summary_texts() {
    assert_eq!(
        status_extra(true, true, 80, CaRule::LifeLike(Rule::conway()), Theme::classic(), true),
        "interactive PAUSED d=80ms"
    );
    assert_eq!(
        status_extra(false, false, 80, CaRule::BriansBrain, Theme::fire(), false),
        "BB fire finite"
    );
    assert_eq!(done_status(CaRule::LifeLike(Rule::highlife()), "stable"), "B36/S23 done:stable");
    assert_eq!(done_status(CaRule::LifeLike(Rule::conway()), "quit"), "done:quit");

    let mut run = RunStats::default();
    run.observe_gen0(3);
    run.observe_step(1, 3, StepStats { births: 2, deaths: 2 });
    let s = summary_text(
        1,
        3,
        "max-gens",
        &run,
        Some(StepStats { births: 2, deaths: 2 }),
        CaRule::LifeLike(Rule::conway()),
        Theme::classic(),
        false,
        false,
    );
    assert_eq!(
        s,
        "gol-rs  gen 1  pop 3  (max-gens)\n  max_pop 3 (gen 0)  min_pop 3  births 2  deaths 2\n  pop: ▅▅\n  last step: +2/-2\n  topology: finite\n"
    );
    assert_eq!(
        stop_note(StopReason::Cycle { period: 2 }, 9),
        "\x1b[Kcycle detected: period 2 at generation 9\n"
    );
    assert_eq!(stop_note(StopReason::MaxGens, 9), "");
    assert_eq!(stats_header(), "gen,pop,births,deaths\n");
    assert_eq!(stats_row(3, 10, 1, 2), "3,10,1,2\n");
}

#[test]
fn loop_decisions_per_generation() {
    assert_eq!(gens_stop(9, 10), None);
    assert_eq!(gens_stop(10, 10), Some(StopReason::MaxGens));
    assert!(due_at(10, 5) && !due_at(11, 5) && !due_at(10, 0));
    assert_eq!(keep_first_period(None, 3), Some(3));
    assert_eq!(keep_first_period(Some(2), 3), Some(2));
}

#[test]
fn restarting_tracks_only_generation_zero() {
    let mut g = Grid::new(6, 6);
    g.set(1, 1, true);
    g.set(2, 1, true);
    let mut run = RunStats::default();
    run.observe_gen0(9);
    run.observe_step(1, 4, StepStats { births: 3, deaths: 8 });
    let mut hist = Some(History::default_window());
    restart_tracking(&mut run, &mut hist, &g);
    assert_eq!(run.pop_samples, vec![2]);
    assert_eq!((run.total_births, run.total_deaths, run.max_pop, run.min_pop), (0, 0, 2, 2));
    let h = hist.as_mut().unwrap();
    assert_eq!(h.len(), 1);
    // The same grid seen again at generation 3 is a cycle of period 3.
    assert_eq!(h.observe(&g, 3), CycleCheck::Cycle { period: 3 });
    let mut none: Option<History> = None;
    restart_tracking(&mut run, &mut none, &g);
    assert!(none.is_none());
}
