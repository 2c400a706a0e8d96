//! Decisions of the simulation loop: stepping under the chosen automaton,
//! seed transforms, run statistics, interactive controls, stop conditions,
//! and the status and summary texts.

use vstd::prelude::*;
use crate::cli::Config;
use crate::grid::{Grid, StepStats};
use crate::history::{spec_hash_grid, History};
use crate::rule::{conway_rule, spec_ca_rule_bs, spec_rule_display, CaRule, Rule};
use crate::sparkline::{seq_max, seq_min};
use crate::term::Key;
use crate::theme::{spec_next_theme, Theme};
use crate::text::{
    chars_eq_str, decimal_seq, push_chars, push_decimal, push_str, str_chars, string_from_chars,
};
use crate::sparkline::{sparkline, spark_text};
use crate::theme::{push_sgr, sgr_text};
use crate::transform::{
    flip_h_in_place, flip_v_in_place, is_flip_h, is_flip_v, is_rotate90, rotate90_in_place,
};

verus! {

/// One generation under `rule`: what `Grid::step_with` or
/// `Grid::step_brians_brain` gives.
pub open spec fn stepped(next: &Grid, g: &Grid, rule: CaRule, stats: StepStats) -> bool {
    &&& next.wf()
    &&& next.w == g.w
    &&& next.h == g.h
    &&& next.wrap == g.wrap
    &&& match rule {
        CaRule::LifeLike(r) => {
            &&& next.states == g.states
            &&& forall|i: int|
                0 <= i < g.w * g.h ==> next.cells@[i] == g.life_next_state(r, i)
                    && next.ages@[i] == g.life_next_age(r, i)
            &&& stats.births == g.life_births_upto(r, g.w * g.h)
            &&& stats.deaths == g.life_deaths_upto(r, g.w * g.h)
        },
        CaRule::BriansBrain => {
            &&& next.states == (if g.states < 3 {
                3
            } else {
                g.states
            })
            &&& forall|i: int|
                0 <= i < g.w * g.h ==> next.cells@[i] == g.brain_next(i).0.0 && next.ages@[i]
                    == g.brain_next(i).0.1
            &&& stats.births == g.brain_births_upto(g.w * g.h)
            &&& stats.deaths == g.brain_deaths_upto(g.w * g.h)
        },
    }
}

/// Advance the grid one generation under the selected automaton.
pub fn step_grid(grid: &mut Grid, rule: &CaRule) -> (stats: StepStats)
    requires
        old(grid).steppable(),
    ensures
        stepped(final(grid), old(grid), *rule, stats),
{
    match rule {
        CaRule::LifeLike(r) => grid.step_with(r),
        CaRule::BriansBrain => grid.step_brians_brain(),
    }
}

/// `g1` is `g` rotated 90° clockwise where `rotate`, `g2` is `g1` mirrored
/// left ↔ right where `flip_h`, and `out` is `g2` mirrored top ↔ bottom where
/// `flip_v` (each unchanged where its transform is not asked for).
pub open spec fn transform_chain(
    out: Grid,
    g: Grid,
    g1: Grid,
    g2: Grid,
    rotate: bool,
    flip_h: bool,
    flip_v: bool,
) -> bool {
    &&& (if rotate {
        is_rotate90(&g1, &g)
    } else {
        g1 == g
    })
    &&& (if flip_h {
        is_flip_h(&g2, &g1)
    } else {
        g2 == g1
    })
    &&& (if flip_v {
        is_flip_v(&out, &g2)
    } else {
        out == g2
    })
}

/// `out` is `g` rotated 90° clockwise where `rotate`, then mirrored left ↔
/// right where `flip_h`, then top ↔ bottom where `flip_v`.
pub open spec fn transformed(out: Grid, g: Grid, rotate: bool, flip_h: bool, flip_v: bool) -> bool {
    exists|g1: Grid, g2: Grid| #[trigger] transform_chain(out, g, g1, g2, rotate, flip_h, flip_v)
}

/// Apply the seed transforms that the configuration asks for: rotate, then
/// flip horizontally, then vertically.
pub fn apply_transforms(grid: &mut Grid, cfg: &Config)
    requires
        old(grid).wf(),
    ensures
        final(grid).wf(),
        transformed(*final(grid), *old(grid), cfg.rotate90, cfg.flip_h, cfg.flip_v),
{
    let ghost g0 = *grid;
    if cfg.rotate90 {
        rotate90_in_place(grid);
    }
    let ghost g1 = *grid;
    if cfg.flip_h {
        flip_h_in_place(grid);
    }
    let ghost g2 = *grid;
    if cfg.flip_v {
        flip_v_in_place(grid);
    }
    assert(transform_chain(*grid, g0, g1, g2, cfg.rotate90, cfg.flip_h, cfg.flip_v));
}

/// Aggregate run statistics.
pub struct RunStats {
    pub max_pop: usize,
    pub min_pop: usize,
    pub gen_at_max_pop: u64,
    pub total_births: u64,
    pub total_deaths: u64,
    pub initial_pop: usize,
    /// True once gen ≥ 1 has been observed for min tracking.
    pub started: bool,
    /// Population samples for sparkline (gen 0 + each step).
    pub pop_samples: Vec<usize>,
}

impl RunStats {
    /// The statistics agree with the samples: the first sample is the
    /// initial population, the largest sample the maximum, and the smallest
    /// sample after the first the minimum (the first one before any step).
    pub open spec fn consistent(&self) -> bool {
        let s = self.pop_samples@;
        &&& s.len() >= 1
        &&& self.initial_pop == s[0]
        &&& self.max_pop == seq_max(s)
        &&& self.started == (s.len() > 1)
        &&& self.min_pop == (if self.started {
            seq_min(s.drop_first())
        } else {
            s[0]
        })
    }

    /// Record the population of generation 0 (a fresh start).
    pub fn observe_gen0(&mut self, pop: usize)
        ensures
            final(self).max_pop == pop,
            final(self).min_pop == pop,
            final(self).gen_at_max_pop == 0,
            final(self).initial_pop == pop,
            !final(self).started,
            final(self).pop_samples@ == seq![pop],
            final(self).total_births == old(self).total_births,
            final(self).total_deaths == old(self).total_deaths,
            final(self).consistent(),
    {
        self.max_pop = pop;
        self.min_pop = pop;
        self.gen_at_max_pop = 0;
        self.initial_pop = pop;
        self.started = false;
        self.pop_samples.clear();
        self.pop_samples.push(pop);
    }

    /// Record the population and step counts of generation `gen`.
    pub fn observe_step(&mut self, gen: u64, pop: usize, stats: StepStats)
        requires
            old(self).total_births + stats.births <= u64::MAX,
            old(self).total_deaths + stats.deaths <= u64::MAX,
        ensures
            final(self).total_births == old(self).total_births + stats.births,
            final(self).total_deaths == old(self).total_deaths + stats.deaths,
            final(self).min_pop == (if !old(self).started || pop < old(self).min_pop {
                pop
            } else {
                old(self).min_pop
            }),
            final(self).started,
            pop > old(self).max_pop ==> final(self).max_pop == pop && final(self).gen_at_max_pop == gen,
            pop <= old(self).max_pop ==> final(self).max_pop == old(self).max_pop
                && final(self).gen_at_max_pop == old(self).gen_at_max_pop,
            final(self).initial_pop == old(self).initial_pop,
            final(self).pop_samples@ == old(self).pop_samples@.push(pop),
            old(self).consistent() ==> final(self).consistent() && final(self).min_pop
                <= final(self).max_pop,
    {
        self.total_births += stats.births as u64;
        self.total_deaths += stats.deaths as u64;
        if !self.started {
            self.min_pop = pop;
            self.started = true;
        } else if pop < self.min_pop {
            self.min_pop = pop;
        }
        if pop > self.max_pop {
            self.max_pop = pop;
            self.gen_at_max_pop = gen;
        }
        self.pop_samples.push(pop);
        proof {
            let s = old(self).pop_samples@;
            let t = self.pop_samples@;
            if old(self).consistent() {
                assert(t.drop_last() =~= s);
                assert(t[0] == s[0]);
                if s.len() > 1 {
                    assert(t.drop_first().drop_last() =~= s.drop_first());
                    assert(t.drop_first().last() == pop);
                } else {
                    assert(t.drop_first() =~= seq![pop]);
                }
                lemma_min_le_max(t);
            }
        }
    }
}

/// The smallest sample after the first is at most the largest sample.
proof fn lemma_min_le_max(s: Seq<usize>)
    requires
        s.len() > 1,
    ensures
        seq_min(s.drop_first()) <= seq_max(s),
{
    crate::sparkline::lemma_min_max_bound(s.drop_first(), 0);
    crate::sparkline::lemma_min_max_bound(s, 1);
}

impl Default for RunStats {
    fn default() -> (r: Self)
        ensures
            r.max_pop == 0 && r.min_pop == 0 && r.gen_at_max_pop == 0 && r.total_births == 0
                && r.total_deaths == 0 && r.initial_pop == 0 && !r.started,
            r.pop_samples@ == Seq::<usize>::empty(),
    {
        RunStats {
            max_pop: 0,
            min_pop: 0,
            gen_at_max_pop: 0,
            total_births: 0,
            total_deaths: 0,
            initial_pop: 0,
            started: false,
            pop_samples: Vec::new(),
        }
    }
}

/// Why a run ended.
#[derive(Debug, Clone, Copy, PartialEq, Eq, Structural)]
pub enum StopReason {
    MaxGens,
    Stable,
    Cycle { period: u64 },
    Quit,
}

/// The label of a stop reason in summaries.
pub open spec fn reason_label(r: StopReason) -> Seq<char> {
    match r {
        StopReason::MaxGens => "max-gens"@,
        StopReason::Stable => "stable"@,
        StopReason::Cycle { period } => "cycle-p"@ + decimal_seq(period as nat),
        StopReason::Quit => "quit"@,
    }
}

impl StopReason {
    pub fn label(&self) -> (s: String)
        ensures
            s@ == reason_label(*self),
    {
        let mut out: Vec<char> = Vec::new();
        match self {
            StopReason::MaxGens => push_str(&mut out, "max-gens"),
            StopReason::Stable => push_str(&mut out, "stable"),
            StopReason::Cycle { period } => {
                push_str(&mut out, "cycle-p");
                push_decimal(&mut out, *period as u128);
            },
            StopReason::Quit => push_str(&mut out, "quit"),
        }
        string_from_chars(out)
    }
}

/// Whether a detected repeat of period `period` ends the run: always with
/// `--until-cycle`, for period 1 with `--until-stable`.
pub open spec fn spec_cycle_stop(until_cycle: bool, until_stable: bool, period: u64) -> Option<StopReason> {
    if until_cycle || (until_stable && period == 1) {
        Some(
            if period == 1 {
                StopReason::Stable
            } else {
                StopReason::Cycle { period }
            },
        )
    } else {
        None
    }
}

/// Whether a detected repeat of period `period` ends the run, and why.
pub fn cycle_stop(until_cycle: bool, until_stable: bool, period: u64) -> (r: Option<StopReason>)
    ensures
        r == spec_cycle_stop(until_cycle, until_stable, period),
{
    if until_cycle || (until_stable && period == 1) {
        Some(
            if period == 1 {
                StopReason::Stable
            } else {
                StopReason::Cycle { period }
            },
        )
    } else {
        None
    }
}

/// The run ends at the generation limit: `MaxGens` once `generation` has
/// reached `gens`.
pub fn gens_stop(generation: u64, gens: u64) -> (r: Option<StopReason>)
    ensures
        r == (if generation >= gens {
            Some(StopReason::MaxGens)
        } else {
            None
        }),
{
    if generation >= gens {
        Some(StopReason::MaxGens)
    } else {
        None
    }
}

/// A periodic action (a snapshot, a recorded frame) falls due on every
/// `every`-th generation; never when `every` is 0.
pub fn due_at(generation: u64, every: u64) -> (b: bool)
    ensures
        b == (every > 0 && generation % every == 0),
{
    every > 0 && generation % every == 0
}

/// The period to keep after detecting a repeat of period `period`: the first
/// one detected in the run.
pub fn keep_first_period(detected: Option<u64>, period: u64) -> (r: Option<u64>)
    ensures
        r == (match detected {
            Some(p) => Some(p),
            None => Some(period),
        }),
{
    match detected {
        Some(p) => Some(p),
        None => Some(period),
    }
}

/// Start tracking a run afresh at generation 0 of `grid` (the first start, or
/// a reseed): the statistics hold only this generation's population, and a
/// cycle history, where one is kept, is a new default window holding only
/// this generation.
pub fn restart_tracking(run_stats: &mut RunStats, history: &mut Option<History>, grid: &Grid)
    ensures
        final(run_stats).pop_samples@ == seq![grid.spec_population() as usize],
        final(run_stats).total_births == 0,
        final(run_stats).total_deaths == 0,
        final(run_stats).gen_at_max_pop == 0,
        final(run_stats).consistent(),
        (*old(history)) is None ==> (*final(history)) is None,
        (*old(history)) is Some ==> ((*final(history)) matches Some(h) && h.wf() && h.spec_capacity()
            == 4096 && h.window() == seq![(0u64, spec_hash_grid(grid))]),
{
    let pop = grid.population();
    let mut fresh = RunStats::default();
    fresh.observe_gen0(pop);
    *run_stats = fresh;
    if history.is_some() {
        let mut h = History::default_window();
        let _ = h.observe(grid, 0);
        proof {
            assert(h.window().len() == 1) by {
                assert(h.window() =~= Seq::<(u64, u64)>::empty().push((0u64, spec_hash_grid(grid))));
            }
        }
        *history = Some(h);
    }
}

/// The period to report in an analysis: the first one detected, else the one
/// implied by the stop reason.
pub open spec fn spec_report_period(detected: Option<u64>, reason: StopReason) -> Option<u64> {
    match detected {
        Some(p) => Some(p),
        None => match reason {
            StopReason::Cycle { period } => Some(period),
            StopReason::Stable => Some(1),
            _ => None,
        },
    }
}

pub fn report_period(detected: Option<u64>, reason: StopReason) -> (r: Option<u64>)
    ensures
        r == spec_report_period(detected, reason),
{
    match detected {
        Some(p) => Some(p),
        None => match reason {
            StopReason::Cycle { period } => Some(period),
            StopReason::Stable => Some(1),
            _ => None,
        },
    }
}

/// What the keyboard controls in interactive mode.
#[derive(Debug, Clone, Copy, PartialEq, Eq)]
pub struct Controls {
    pub paused: bool,
    pub delay_ms: u64,
    pub theme: Theme,
    pub age_heat: bool,
    pub wrap: bool,
}

/// What the caller has to do for a key, besides the control changes.
#[derive(Debug, Clone, Copy, PartialEq, Eq, Structural)]
pub enum KeyAction {
    Nothing,
    Quit,
    Reseed,
    Save,
    ShowSparkline,
}

/// The controls after a key, whether to step this round, and the action.
/// `polled` is `None` when no key came before the timeout.
pub open spec fn spec_handle_key(c: Controls, polled: Option<Key>) -> (Controls, bool, KeyAction) {
    let run = !c.paused;
    match polled {
        None => (c, run, KeyAction::Nothing),
        Some(k) => match k {
            Key::Quit => (c, false, KeyAction::Quit),
            Key::Space => (Controls { paused: !c.paused, ..c }, false, KeyAction::Nothing),
            Key::Step => (c, c.paused, KeyAction::Nothing),
            Key::Faster => (
                Controls {
                    delay_ms: if c.delay_ms / 2 < 1 {
                        1
                    } else {
                        c.delay_ms / 2
                    },
                    ..c
                },
                run,
                KeyAction::Nothing,
            ),
            Key::Slower => (
                Controls {
                    delay_ms: if c.delay_ms * 2 > 5000 {
                        5000
                    } else {
                        (c.delay_ms * 2) as u64
                    },
                    ..c
                },
                run,
                KeyAction::Nothing,
            ),
            Key::Reseed => (c, false, KeyAction::Reseed),
            Key::Theme => (Controls { theme: spec_next_theme(c.theme), ..c }, run, KeyAction::Nothing),
            Key::Age => (Controls { age_heat: !c.age_heat, ..c }, run, KeyAction::Nothing),
            Key::Wrap => (Controls { wrap: !c.wrap, ..c }, run, KeyAction::Nothing),
            Key::Save => (c, run, KeyAction::Save),
            Key::Sparkline => (c, run, KeyAction::ShowSparkline),
            Key::Other(_) => (c, run, KeyAction::Nothing),
        },
    }
}

/// Interactive mode: apply a key (or its absence) to the controls. Returns
/// the new controls, whether to step this round, and what the caller must do.
pub fn handle_key(c: Controls, polled: Option<Key>) -> (r: (Controls, bool, KeyAction))
    ensures
        r == spec_handle_key(c, polled),
{
    let run = !c.paused;
    match polled {
        None => (c, run, KeyAction::Nothing),
        Some(k) => match k {
            Key::Quit => (c, false, KeyAction::Quit),
            Key::Space => (Controls { paused: !c.paused, ..c }, false, KeyAction::Nothing),
            Key::Step => (c, c.paused, KeyAction::Nothing),
            Key::Faster => {
                let half = c.delay_ms / 2;
                (Controls { delay_ms: if half < 1 { 1 } else { half }, ..c }, run, KeyAction::Nothing)
            },
            Key::Slower => {
                let doubled = if c.delay_ms > u64::MAX / 2 {
                    u64::MAX
                } else {
                    c.delay_ms * 2
                };
                (
                    Controls { delay_ms: if doubled > 5000 { 5000 } else { doubled }, ..c },
                    run,
                    KeyAction::Nothing,
                )
            },
            Key::Reseed => (c, false, KeyAction::Reseed),
            Key::Theme => (Controls { theme: c.theme.next(), ..c }, run, KeyAction::Nothing),
            Key::Age => (Controls { age_heat: !c.age_heat, ..c }, run, KeyAction::Nothing),
            Key::Wrap => (Controls { wrap: !c.wrap, ..c }, run, KeyAction::Nothing),
            Key::Save => (c, run, KeyAction::Save),
            Key::Sparkline => (c, run, KeyAction::ShowSparkline),
            Key::Other(_) => (c, run, KeyAction::Nothing),
        },
    }
}

/// How long to wait for a key: 50 ms while paused, else the frame delay
/// (as an `i32`, as `poll` takes it).
pub fn poll_timeout(paused: bool, delay_ms: u64) -> (t: i32)
    ensures
        t == (if paused {
            50i32
        } else {
            delay_ms as i32
        }),
{
    if paused {
        50
    } else {
        delay_ms as i32
    }
}

/// `acc` and `word` separated by a blank (just `word` where `acc` is empty).
pub open spec fn join_word(acc: Seq<char>, word: Seq<char>) -> Seq<char> {
    if acc.len() == 0 {
        word
    } else {
        acc + seq![' '] + word
    }
}

fn push_word(out: &mut Vec<char>, word: &[char])
    ensures
        final(out)@ == join_word(old(out)@, word@),
{
    if out.len() > 0 {
        out.push(' ');
    }
    push_chars(out, word);
    assert(out@ =~= join_word(old(out)@, word@));
}

/// Conway's rule, the default automaton.
pub open spec fn is_default_rule(rule: CaRule) -> bool {
    rule == CaRule::LifeLike(conway_rule())
}

/// The status shown in the header while animating: interactive state (pause,
/// delay), the rule where it is not Conway's, the theme where it is not
/// classic, and `finite` for hard edges.
pub open spec fn spec_status_extra(
    interactive: bool,
    paused: bool,
    delay_ms: u64,
    rule: CaRule,
    theme_name: Seq<char>,
    wrap: bool,
) -> Seq<char> {
    let s1 = if interactive {
        "interactive"@ + (if paused {
            " PAUSED"@
        } else {
            Seq::empty()
        }) + " d="@ + decimal_seq(delay_ms as nat) + "ms"@
    } else {
        Seq::empty()
    };
    let s2 = if !is_default_rule(rule) {
        join_word(s1, spec_ca_rule_bs(rule))
    } else {
        s1
    };
    let s3 = if theme_name != "classic"@ {
        join_word(s2, theme_name)
    } else {
        s2
    };
    if !wrap {
        join_word(s3, "finite"@)
    } else {
        s3
    }
}

pub fn status_extra(
    interactive: bool,
    paused: bool,
    delay_ms: u64,
    rule: CaRule,
    theme: Theme,
    wrap: bool,
) -> (s: String)
    ensures
        s@ == spec_status_extra(interactive, paused, delay_ms, rule, theme.name@, wrap),
{
    let mut out: Vec<char> = Vec::new();
    if interactive {
        push_str(&mut out, "interactive");
        if paused {
            push_str(&mut out, " PAUSED");
        }
        push_str(&mut out, " d=");
        push_decimal(&mut out, delay_ms as u128);
        push_str(&mut out, "ms");
    }
    let ghost s1 = out@;
    if rule != CaRule::LifeLike(Rule::conway()) {
        let bs = str_chars(rule.to_string_bs().as_str());
        push_word(&mut out, bs.as_slice());
    }
    let name = str_chars(theme.name);
    if !chars_eq_str(name.as_slice(), "classic") {
        push_word(&mut out, name.as_slice());
    }
    if !wrap {
        let fin = str_chars("finite");
        push_word(&mut out, fin.as_slice());
    }
    string_from_chars(out)
}

/// The status of the final frame: the rule where it is not Conway's, then
/// `done:` and the stop reason.
pub open spec fn spec_done_status(rule: CaRule, reason: Seq<char>) -> Seq<char> {
    (if !is_default_rule(rule) {
        spec_ca_rule_bs(rule) + seq![' ']
    } else {
        Seq::empty()
    }) + "done:"@ + reason
}

pub fn done_status(rule: CaRule, reason: &str) -> (s: String)
    ensures
        s@ == spec_done_status(rule, reason@),
{
    let mut out: Vec<char> = Vec::new();
    if rule != CaRule::LifeLike(Rule::conway()) {
        let bs = str_chars(rule.to_string_bs().as_str());
        push_chars(&mut out, bs.as_slice());
        out.push(' ');
    }
    push_str(&mut out, "done:");
    push_str(&mut out, reason);
    assert(out@ =~= spec_done_status(rule, reason@));
    string_from_chars(out)
}

/// `ESC[0m`.
pub open spec fn reset_text() -> Seq<char> {
    seq!['\u{1b}', '[', '0', 'm']
}

/// First line of the summary: generation, population and stop reason.
pub open spec fn summary_head(generation: u64, pop: usize, reason: Seq<char>, theme: Theme, color: bool) -> Seq<
    char,
> {
    if color {
        sgr_text("1;"@, theme.title_sgr) + "gol-rs"@ + reset_text() + "  gen "@ + sgr_text(
            ""@,
            theme.accent_sgr,
        ) + decimal_seq(generation as nat) + reset_text() + "  pop "@ + sgr_text(""@, theme.pop_sgr)
            + decimal_seq(pop as nat) + reset_text() + "  ("@ + reason + ")\n"@
    } else {
        "gol-rs  gen "@ + decimal_seq(generation as nat) + "  pop "@ + decimal_seq(pop as nat) + "  ("@
            + reason + ")\n"@
    }
}

/// Second line of the summary: population extremes and step totals.
pub open spec fn summary_stats(run: &RunStats) -> Seq<char> {
    "  max_pop "@ + decimal_seq(run.max_pop as nat) + " (gen "@ + decimal_seq(
        run.gen_at_max_pop as nat,
    ) + ")  min_pop "@ + decimal_seq(run.min_pop as nat) + "  births "@ + decimal_seq(
        run.total_births as nat,
    ) + "  deaths "@ + decimal_seq(run.total_deaths as nat) + "\n"@
}

/// Population sparkline line of the summary (absent without samples).
pub open spec fn summary_spark(run: &RunStats) -> Seq<char> {
    let spark = spark_text(run.pop_samples@, 40);
    if spark.len() > 0 {
        "  pop: "@ + spark + "\n"@
    } else {
        Seq::empty()
    }
}

/// Last-step line of the summary.
pub open spec fn summary_last(last_stats: Option<StepStats>) -> Seq<char> {
    match last_stats {
        Some(s) => "  last step: +"@ + decimal_seq(s.births as nat) + "/-"@ + decimal_seq(
            s.deaths as nat,
        ) + "\n"@,
        None => Seq::empty(),
    }
}

/// Rule, theme and topology lines of the summary, where they are not the
/// defaults.
pub open spec fn summary_setup(rule: CaRule, theme: Theme, wrap: bool) -> Seq<char> {
    (if !is_default_rule(rule) {
        "  rule: "@ + (match rule {
            CaRule::LifeLike(r) => spec_rule_display(r),
            CaRule::BriansBrain => "brian (Brian's Brain)"@,
        }) + "\n"@
    } else {
        Seq::empty()
    }) + (if theme.name@ != "classic"@ {
        "  theme: "@ + theme.name@ + "\n"@
    } else {
        Seq::empty()
    }) + (if !wrap {
        "  topology: finite\n"@
    } else {
        Seq::empty()
    })
}

/// Optional lines of the summary: population sparkline, last step, rule,
/// theme and topology where they are not the defaults.
pub open spec fn summary_tail(
    run: &RunStats,
    last_stats: Option<StepStats>,
    rule: CaRule,
    theme: Theme,
    wrap: bool,
) -> Seq<char> {
    summary_spark(run) + summary_last(last_stats) + summary_setup(rule, theme, wrap)
}

fn push_reset_text(out: &mut Vec<char>)
    ensures
        final(out)@ == old(out)@ + reset_text(),
{
    out.push('\u{1b}');
    out.push('[');
    out.push('0');
    out.push('m');
    assert(out@ =~= old(out)@ + reset_text());
}

fn summary_head_text(
    out: &mut Vec<char>,
    generation: u64,
    pop: usize,
    reason: &str,
    theme: Theme,
    color: bool,
)
    ensures
        final(out)@ == old(out)@ + summary_head(generation, pop, reason@, theme, color),
{
    if color {
        push_sgr(out, "1;", theme.title_sgr);
        push_str(out, "gol-rs");
        push_reset_text(out);
        push_str(out, "  gen ");
        push_sgr(out, "", theme.accent_sgr);
        push_decimal(out, generation as u128);
        push_reset_text(out);
        push_str(out, "  pop ");
        push_sgr(out, "", theme.pop_sgr);
        push_decimal(out, pop as u128);
        push_reset_text(out);
    } else {
        push_str(out, "gol-rs  gen ");
        push_decimal(out, generation as u128);
        push_str(out, "  pop ");
        push_decimal(out, pop as u128);
    }
    push_str(out, "  (");
    push_str(out, reason);
    push_str(out, ")\n");
    assert(out@ =~= old(out)@ + summary_head(generation, pop, reason@, theme, color));
}

fn summary_stats_text(out: &mut Vec<char>, run: &RunStats)
    ensures
        final(out)@ == old(out)@ + summary_stats(run),
{
    push_str(out, "  max_pop ");
    push_decimal(out, run.max_pop as u128);
    push_str(out, " (gen ");
    push_decimal(out, run.gen_at_max_pop as u128);
    push_str(out, ")  min_pop ");
    push_decimal(out, run.min_pop as u128);
    push_str(out, "  births ");
    push_decimal(out, run.total_births as u128);
    push_str(out, "  deaths ");
    push_decimal(out, run.total_deaths as u128);
    push_str(out, "\n");
    assert(out@ =~= old(out)@ + summary_stats(run));
}

fn summary_spark_text(out: &mut Vec<char>, run: &RunStats)
    ensures
        final(out)@ == old(out)@ + summary_spark(run),
{
    let spark = str_chars(sparkline(run.pop_samples.as_slice(), 40).as_str());
    if spark.len() > 0 {
        push_str(out, "  pop: ");
        push_chars(out, spark.as_slice());
        push_str(out, "\n");
    }
    assert(out@ =~= old(out)@ + summary_spark(run));
}

fn summary_last_text(out: &mut Vec<char>, last_stats: Option<StepStats>)
    ensures
        final(out)@ == old(out)@ + summary_last(last_stats),
{
    if let Some(s) = last_stats {
        push_str(out, "  last step: +");
        push_decimal(out, s.births as u128);
        push_str(out, "/-");
        push_decimal(out, s.deaths as u128);
        push_str(out, "\n");
    }
    assert(out@ =~= old(out)@ + summary_last(last_stats));
}

fn summary_setup_text(out: &mut Vec<char>, rule: CaRule, theme: Theme, wrap: bool)
    ensures
        final(out)@ == old(out)@ + summary_setup(rule, theme, wrap),
{
    let ghost start = out@;
    if rule != CaRule::LifeLike(Rule::conway()) {
        push_str(out, "  rule: ");
        let d = str_chars(rule.display_name().as_str());
        push_chars(out, d.as_slice());
        push_str(out, "\n");
    }
    let ghost mid = out@;
    let name = str_chars(theme.name);
    if !chars_eq_str(name.as_slice(), "classic") {
        push_str(out, "  theme: ");
        push_chars(out, name.as_slice());
        push_str(out, "\n");
    }
    if !wrap {
        push_str(out, "  topology: finite\n");
    }
    assert(out@ =~= old(out)@ + summary_setup(rule, theme, wrap));
}

/// The end-of-run summary.
pub fn summary_text(
    generation: u64,
    pop: usize,
    reason: &str,
    run: &RunStats,
    last_stats: Option<StepStats>,
    rule: CaRule,
    theme: Theme,
    wrap: bool,
    color: bool,
) -> (s: String)
    ensures
        s@ == summary_head(generation, pop, reason@, theme, color) + summary_stats(run) + summary_tail(
            run,
            last_stats,
            rule,
            theme,
            wrap,
        ),
{
    let mut out: Vec<char> = Vec::new();
    summary_head_text(&mut out, generation, pop, reason, theme, color);
    summary_stats_text(&mut out, run);
    summary_spark_text(&mut out, run);
    summary_last_text(&mut out, last_stats);
    summary_setup_text(&mut out, rule, theme, wrap);
    assert(out@ =~= summary_head(generation, pop, reason@, theme, color) + summary_stats(run)
        + summary_tail(run, last_stats, rule, theme, wrap));
    string_from_chars(out)
}

/// What is printed after the final frame where the run ended on a repeat.
pub open spec fn spec_stop_note(reason: StopReason, generation: u64) -> Seq<char> {
    match reason {
        StopReason::Cycle { period } => seq!['\u{1b}', '[', 'K'] + "cycle detected: period "@
            + decimal_seq(period as nat) + " at generation "@ + decimal_seq(generation as nat) + "\n"@,
        StopReason::Stable => seq!['\u{1b}', '[', 'K'] + "stable (period 1) at generation "@
            + decimal_seq(generation as nat) + "\n"@,
        _ => Seq::empty(),
    }
}

pub fn stop_note(reason: StopReason, generation: u64) -> (s: String)
    ensures
        s@ == spec_stop_note(reason, generation),
{
    let mut out: Vec<char> = Vec::new();
    match reason {
        StopReason::Cycle { period } => {
            out.push('\u{1b}');
            out.push('[');
            out.push('K');
            push_str(&mut out, "cycle detected: period ");
            push_decimal(&mut out, period as u128);
            push_str(&mut out, " at generation ");
            push_decimal(&mut out, generation as u128);
            push_str(&mut out, "\n");
        },
        StopReason::Stable => {
            out.push('\u{1b}');
            out.push('[');
            out.push('K');
            push_str(&mut out, "stable (period 1) at generation ");
            push_decimal(&mut out, generation as u128);
            push_str(&mut out, "\n");
        },
        _ => {},
    }
    assert(out@ =~= spec_stop_note(reason, generation));
    string_from_chars(out)
}

/// Header of the statistics CSV.
pub fn stats_header() -> (s: String)
    ensures
        s@ == "gen,pop,births,deaths\n"@,
{
    string_from_chars(str_chars("gen,pop,births,deaths\n"))
}

/// One row of the statistics CSV: `gen,pop,births,deaths`.
pub fn stats_row(generation: u64, pop: usize, births: usize, deaths: usize) -> (s: String)
    ensures
        s@ == decimal_seq(generation as nat) + ","@ + decimal_seq(pop as nat) + ","@ + decimal_seq(
            births as nat,
        ) + ","@ + decimal_seq(deaths as nat) + "\n"@,
{
    let mut out: Vec<char> = Vec::new();
    push_decimal(&mut out, generation as u128);
    push_str(&mut out, ",");
    push_decimal(&mut out, pop as u128);
    push_str(&mut out, ",");
    push_decimal(&mut out, births as u128);
    push_str(&mut out, ",");
    push_decimal(&mut out, deaths as u128);
    push_str(&mut out, "\n");
    string_from_chars(out)
}

} // verus!
