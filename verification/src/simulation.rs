//! A reusable simulation driver and bounded exact-state cycle detection.

use vstd::prelude::*;
use crate::grid::{Grid, StepStats};
use crate::rule::Rule;

verus! {

/// Default upper bound for retained, packed cycle-state payloads.
pub const DEFAULT_MAX_CYCLE_BYTES: usize = 67108864;

/// Edge topology used when stepping.
#[derive(Clone, Copy, Debug, PartialEq, Eq, Structural)]
pub enum Boundary {
    /// Edges wrap toroidally.
    Wrap,
    /// Off-grid neighbours count as dead.
    Finite,
}

/// The liveness bits of `cells[start..start + n]`, bit `j` for cell `start + j`.
pub open spec fn word_bits(cells: Seq<u8>, start: int, n: int) -> u64
    decreases n,
{
    if n <= 0 {
        0
    } else if cells[start + n - 1] != 0 {
        word_bits(cells, start, n - 1) | (1u64 << ((n - 1) as u64))
    } else {
        word_bits(cells, start, n - 1)
    }
}

/// Liveness packed 64 cells per word, least significant bit first.
pub open spec fn packed_words(cells: Seq<u8>) -> Seq<u64> {
    Seq::new(
        ((cells.len() + 63) / 64) as nat,
        |k: int|
            word_bits(
                cells,
                64 * k,
                if cells.len() - 64 * k < 64 {
                    cells.len() - 64 * k
                } else {
                    64
                },
            ),
    )
}

/// `g` with its topology flag replaced.
pub open spec fn with_wrap_flag(g: Grid, wrap: bool) -> Grid {
    Grid { wrap: wrap, ..g }
}

/// Every cell is dead (0) or live (1).
pub open spec fn is_binary(cells: Seq<u8>) -> bool {
    forall|i: int| 0 <= i < cells.len() ==> #[trigger] cells[i] <= 1
}

/// Identity of a grid state for cycle detection: dimensions and packed
/// liveness, and, where some cell holds a state above 1 (a multi-state
/// grid), the cell values themselves, so that states 1 and 2 stay apart.
pub open spec fn state_key(g: &Grid) -> (usize, usize, Seq<u64>, Seq<u8>) {
    (g.w, g.h, packed_words(g.cells@), if is_binary(g.cells@) {
        Seq::empty()
    } else {
        g.cells@
    })
}

/// Bytes retained for a key: eight per packed word and one per kept cell
/// value, saturating at `usize::MAX`.
pub open spec fn key_bytes(k: (usize, usize, Seq<u64>, Seq<u8>)) -> int {
    if 8 * k.2.len() + k.3.len() > usize::MAX {
        usize::MAX as int
    } else {
        (8 * k.2.len() + k.3.len()) as int
    }
}

/// Bit `k` of the packed word of `cells[start..start + n]` is the liveness of
/// cell `start + k`; the word has no bits at or above `n`.
proof fn lemma_word_bits(cells: Seq<u8>, start: int, n: int)
    requires
        0 <= n <= 64,
    ensures
        forall|k: u64|
            k < n ==> ((#[trigger] (word_bits(cells, start, n) >> k)) & 1u64) == (if cells[start
                + k] != 0 {
                1u64
            } else {
                0u64
            }),
        n < 64 ==> word_bits(cells, start, n) < (1u64 << (n as u64)),
    decreases n,
{
    if n > 0 {
        let m = (n - 1) as u64;
        lemma_word_bits(cells, start, n - 1);
        let x = word_bits(cells, start, n - 1);
        assert(x < (1u64 << m));
        if cells[start + n - 1] != 0 {
            let y = x | (1u64 << m);
            assert(y == word_bits(cells, start, n));
            assert forall|k: u64| k < m implies ((y >> k) & 1u64) == ((x >> k) & 1u64) by {
                assert(k < m && m < 64 && x < (1u64 << m) ==> (((x | (1u64 << m)) >> k) & 1u64) == ((x
                    >> k) & 1u64)) by (bit_vector);
            }
            assert(((y >> m) & 1u64) == 1u64) by {
                assert(m < 64 && x < (1u64 << m) ==> (((x | (1u64 << m)) >> m) & 1u64) == 1u64)
                    by (bit_vector);
            }
            if n < 64 {
                let m1 = n as u64;
                assert((x | (1u64 << m)) < (1u64 << m1)) by (bit_vector)
                    requires
                        m < 63,
                        x < (1u64 << m),
                        m1 == m + 1,
                ;
            }
        } else {
            assert(x == word_bits(cells, start, n));
            assert(((x >> m) & 1u64) == 0u64) by {
                assert(m < 64 && x < (1u64 << m) ==> ((x >> m) & 1u64) == 0u64) by (bit_vector);
            }
            if n < 64 {
                let m1 = n as u64;
                assert(x < (1u64 << m1)) by (bit_vector)
                    requires
                        m < 63,
                        x < (1u64 << m),
                        m1 == m + 1,
                ;
            }
        }
    } else {
        assert(word_bits(cells, start, 0) == 0u64);
        assert((0u64 as u64) < (1u64 << 0u64)) by (bit_vector);
    }
}

/// Equal keys mean equal states: two well-formed grids with the same key have
/// the same dimensions and the same cells, so a repeat that the detector
/// reports is an exact repeat.
pub proof fn law_state_key_exact(a: &Grid, b: &Grid)
    requires
        a.wf(),
        b.wf(),
        state_key(a) == state_key(b),
    ensures
        a.w == b.w,
        a.h == b.h,
        a.cells@ == b.cells@,
{
    let ca = a.cells@;
    let cb = b.cells@;
    assert(ca.len() == cb.len());
    if !is_binary(ca) || !is_binary(cb) {
        if !is_binary(ca) {
            let i = choose|i: int| 0 <= i < ca.len() && !(#[trigger] ca[i] <= 1);
            assert(state_key(a).3 == ca);
            if is_binary(cb) {
                assert(state_key(b).3.len() == 0);
            }
        } else {
            let i = choose|i: int| 0 <= i < cb.len() && !(#[trigger] cb[i] <= 1);
            assert(state_key(b).3 == cb);
            assert(state_key(a).3.len() == 0);
        }
        assert(ca =~= cb);
    } else {
        let pa = packed_words(ca);
        let pb = packed_words(cb);
        assert forall|i: int| 0 <= i < ca.len() implies ca[i] == cb[i] by {
            let k = i / 64;
            let off = i % 64;
            let n = if ca.len() - 64 * k < 64 {
                ca.len() - 64 * k
            } else {
                64
            };
            assert(0 <= k < pa.len());
            assert(pa[k] == pb[k]);
            lemma_word_bits(ca, 64 * k, n);
            lemma_word_bits(cb, 64 * k, n);
            assert(64 * k + off == i);
            assert(off < n);
            let o = off as u64;
            assert(((pa[k] >> o) & 1u64) == ((pb[k] >> o) & 1u64));
            assert(ca[64 * k + o] == ca[i]);
            assert(ca[i] <= 1 && cb[i] <= 1);
        }
        assert(ca =~= cb);
    }
}

#[derive(Clone, Debug)]
struct StateKey {
    width: usize,
    height: usize,
    cells: Vec<u64>,
    states: Vec<u8>,
}

impl StateKey {
    spec fn view(&self) -> (usize, usize, Seq<u64>, Seq<u8>) {
        (self.width, self.height, self.cells@, self.states@)
    }

    fn from_grid(grid: &Grid) -> (r: StateKey)
        ensures
            r.view() == state_key(grid),
    {
        let cells_in = grid.cells.as_slice();
        let mut out: Vec<u64> = Vec::new();
        let mut acc: u64 = 0;
        let mut bit: u64 = 0;
        let mut i: usize = 0;
        while i < cells_in.len()
            invariant
                i <= cells_in@.len(),
                cells_in@ == grid.cells@,
                bit < 64,
                i == 64 * out@.len() + bit,
                acc == word_bits(cells_in@, 64 * out@.len() as int, bit as int),
                forall|k: int|
                    0 <= k < out@.len() ==> #[trigger] out@[k] == word_bits(cells_in@, 64 * k, 64),
            decreases cells_in@.len() - i,
        {
            if cells_in[i] != 0 {
                acc = acc | (1u64 << bit);
            }
            bit += 1;
            i += 1;
            if bit == 64 {
                out.push(acc);
                acc = 0;
                bit = 0;
            }
        }
        let ghost full = out@.len();
        if bit != 0 {
            out.push(acc);
        }
        assert(out@.len() == (cells_in@.len() + 63) / 64);
        assert forall|k: int| 0 <= k < out@.len() implies out@[k] == packed_words(cells_in@)[k] by {
            if k < full {
                assert(cells_in@.len() - 64 * k >= 64);
            }
        }
        assert(out@ =~= packed_words(cells_in@));
        let mut binary = true;
        let mut k: usize = 0;
        while k < cells_in.len()
            invariant
                k <= cells_in@.len(),
                binary == (forall|q: int| 0 <= q < k ==> #[trigger] cells_in@[q] <= 1),
            decreases cells_in@.len() - k,
        {
            if cells_in[k] > 1 {
                binary = false;
            }
            k += 1;
        }
        let mut states: Vec<u8> = Vec::new();
        if !binary {
            let mut q: usize = 0;
            while q < cells_in.len()
                invariant
                    q <= cells_in@.len(),
                    states@ == cells_in@.take(q as int),
                decreases cells_in@.len() - q,
            {
                states.push(cells_in[q]);
                q += 1;
                assert(states@ =~= cells_in@.take(q as int));
            }
            assert(cells_in@.take(cells_in@.len() as int) =~= cells_in@);
        }
        StateKey { width: grid.width_value(), height: grid.height_value(), cells: out, states }
    }

    fn payload_bytes(&self) -> (n: usize)
        ensures
            n == key_bytes(self.view()),
    {
        let n = self.cells.len();
        let m = self.states.len();
        if n > usize::MAX / 8 || n * 8 > usize::MAX - m {
            usize::MAX
        } else {
            n * 8 + m
        }
    }

    fn same(&self, other: &StateKey) -> (b: bool)
        ensures
            b == (self.view() == other.view()),
    {
        if self.width != other.width || self.height != other.height || self.cells.len()
            != other.cells.len() || self.states.len() != other.states.len() {
            return false;
        }
        let mut q: usize = 0;
        while q < self.states.len()
            invariant
                q <= self.states@.len() == other.states@.len(),
                forall|j: int| 0 <= j < q ==> self.states@[j] == other.states@[j],
            decreases self.states@.len() - q,
        {
            if self.states[q] != other.states[q] {
                return false;
            }
            q += 1;
        }
        assert(self.states@ =~= other.states@);
        let mut i: usize = 0;
        while i < self.cells.len()
            invariant
                i <= self.cells@.len() == other.cells@.len(),
                forall|j: int| 0 <= j < i ==> self.cells@[j] == other.cells@[j],
            decreases self.cells@.len() - i,
        {
            if self.cells[i] != other.cells[i] {
                return false;
            }
            i += 1;
        }
        assert(self.cells@ =~= other.cells@);
        true
    }
}

impl Grid {
    fn width_value(&self) -> (w: usize)
        ensures
            w == self.w,
    {
        self.w
    }

    fn height_value(&self) -> (h: usize)
        ensures
            h == self.h,
    {
        self.h
    }
}

/// Statistics for a fully materialized generation.
#[derive(Clone, Copy, Debug, Default, Eq, PartialEq, Structural)]
pub struct GenerationStats {
    pub generation: u64,
    pub population: usize,
    pub births: usize,
    pub deaths: usize,
    pub survivors: usize,
}

impl GenerationStats {
    /// Cells that changed state: births plus deaths.
    pub fn changed(&self) -> (n: usize)
        requires
            self.births + self.deaths <= usize::MAX,
        ensures
            n == self.births + self.deaths,
    {
        self.births + self.deaths
    }
}

/// A reusable simulation that owns a grid and its evolution settings.
#[derive(Clone, Debug)]
pub struct Simulation {
    grid: Grid,
    rule: Rule,
    boundary: Boundary,
    generation: u64,
}

impl Simulation {
    pub closed spec fn spec_grid(&self) -> Grid {
        self.grid
    }

    pub closed spec fn spec_rule(&self) -> Rule {
        self.rule
    }

    pub closed spec fn spec_boundary(&self) -> Boundary {
        self.boundary
    }

    pub closed spec fn spec_generation(&self) -> u64 {
        self.generation
    }

    pub fn new(grid: Grid, rule: Rule, boundary: Boundary) -> (s: Self)
        ensures
            s.spec_grid() == grid,
            s.spec_rule() == rule,
            s.spec_boundary() == boundary,
            s.spec_generation() == 0,
    {
        Simulation { grid, rule, boundary, generation: 0 }
    }

    pub fn generation(&self) -> (g: u64)
        ensures
            g == self.spec_generation(),
    {
        self.generation
    }

    pub fn rule(&self) -> (r: Rule)
        ensures
            r == self.spec_rule(),
    {
        self.rule
    }

    pub fn boundary(&self) -> (b: Boundary)
        ensures
            b == self.spec_boundary(),
    {
        self.boundary
    }

    pub fn grid(&self) -> (g: &Grid)
        ensures
            *g == self.spec_grid(),
    {
        &self.grid
    }

    pub fn grid_mut(&mut self) -> (g: &mut Grid)
        ensures
            *g == old(self).spec_grid(),
            final(self).spec_grid() == *final(g),
            final(self).spec_rule() == old(self).spec_rule(),
            final(self).spec_boundary() == old(self).spec_boundary(),
            final(self).spec_generation() == old(self).spec_generation(),
    {
        &mut self.grid
    }

    /// Statistics of the current generation (no transitions).
    pub fn current_stats(&self) -> (s: GenerationStats)
        ensures
            s.generation == self.spec_generation(),
            s.population == self.spec_grid().spec_population(),
            s.births == 0,
            s.deaths == 0,
            s.survivors == 0,
    {
        GenerationStats {
            generation: self.generation,
            population: self.grid.population(),
            births: 0,
            deaths: 0,
            survivors: 0,
        }
    }

    /// Advance one generation and report the transitions that produced it.
    pub fn step(&mut self) -> (s: GenerationStats)
        requires
            old(self).spec_grid().steppable(),
        ensures
            ({
                let g0 = old(self).spec_grid();
                let g1 = final(self).spec_grid();
                let r = old(self).spec_rule();
                let n = g0.w * g0.h;
                let wrap = old(self).spec_boundary() == Boundary::Wrap;
                let gw = with_wrap_flag(g0, wrap);
                &&& g1.steppable()
                &&& g1.w == g0.w
                &&& g1.h == g0.h
                &&& g1.wrap == wrap
                &&& g1.states == g0.states
                &&& forall|i: int|
                    0 <= i < n ==> g1.cells@[i] == gw.life_next_state(r, i) && g1.ages@[i]
                        == gw.life_next_age(r, i)
                &&& s.births == gw.life_births_upto(r, n)
                &&& s.deaths == gw.life_deaths_upto(r, n)
                &&& s.population == g1.spec_population()
                &&& s.survivors == s.population - s.births
            }),
            s.generation == final(self).spec_generation(),
            final(self).spec_generation() == (if old(self).spec_generation() == u64::MAX {
                u64::MAX
            } else {
                (old(self).spec_generation() + 1) as u64
            }),
            final(self).spec_rule() == old(self).spec_rule(),
            final(self).spec_boundary() == old(self).spec_boundary(),
    {
        self.grid.wrap = match self.boundary {
            Boundary::Wrap => true,
            Boundary::Finite => false,
        };
        let t: StepStats = self.grid.step_with(&self.rule);
        proof {
            lemma_births_le_population(&self.grid, old(self).spec_grid(), self.rule);
        }
        self.generation = self.generation.saturating_add(1);
        let population = self.grid.population();
        GenerationStats {
            generation: self.generation,
            population,
            births: t.births,
            deaths: t.deaths,
            survivors: population - t.births,
        }
    }
}

/// Born cells are live in the next generation, so births never exceed the
/// next population.
proof fn lemma_births_le_population(g1: &Grid, g0: Grid, r: Rule)
    requires
        g1.wf(),
        ({
            let gw = with_wrap_flag(g0, g1.wrap);
            &&& g1.w == g0.w
            &&& g1.h == g0.h
            &&& forall|i: int| 0 <= i < g0.w * g0.h ==> g1.cells@[i] == gw.life_next_state(r, i)
        }),
    ensures
        with_wrap_flag(g0, g1.wrap).life_births_upto(r, g0.w * g0.h) <= g1.spec_population(),
{
    let gw = with_wrap_flag(g0, g1.wrap);
    lemma_births_le_count(g1.cells@, gw, r, g1.cells@.len() as int);
}

proof fn lemma_births_le_count(cells: Seq<u8>, gw: Grid, r: Rule, k: int)
    requires
        0 <= k <= cells.len(),
        cells.len() == gw.w * gw.h,
        forall|i: int| 0 <= i < gw.w * gw.h ==> cells[i] == gw.life_next_state(r, i),
    ensures
        gw.life_births_upto(r, k) <= Grid::count_cells(cells, k, |c: u8| c != 0),
    decreases k,
{
    if k > 0 {
        lemma_births_le_count(cells, gw, r, k - 1);
    }
}

/// Human-readable classification of an exact repeated state.
#[derive(Clone, Copy, Debug, Eq, PartialEq, Structural)]
pub enum CycleKind {
    Stable,
    Oscillator,
}

impl CycleKind {
    /// `stable` or `oscillator`.
    pub fn label(&self) -> (s: String)
        ensures
            s@ == (match self {
                CycleKind::Stable => "stable"@,
                CycleKind::Oscillator => "oscillator"@,
            }),
    {
        match self {
            CycleKind::Stable => crate::text::string_from_chars(crate::text::str_chars("stable")),
            CycleKind::Oscillator => crate::text::string_from_chars(
                crate::text::str_chars("oscillator"),
            ),
        }
    }
}

/// An exact-state repeat. Translating spaceships are intentionally not treated
/// as cycles unless the complete board is identical.
#[derive(Clone, Copy, Debug, Eq, PartialEq, Structural)]
pub struct Cycle {
    pub first_generation: u64,
    pub repeated_generation: u64,
    pub period: u64,
    pub kind: CycleKind,
}

/// Bounded exact-state cycle detection.
///
/// Complete packed cell vectors (and, on multi-state grids, the cell values)
/// are retained, so hash collisions cannot create false cycles. The detector stops accepting new states once either its
/// state-count or packed-payload budget is reached.
#[derive(Clone, Debug)]
pub struct CycleDetector {
    seen: Vec<(StateKey, u64)>,
    max_states: usize,
    max_bytes: usize,
    tracked_bytes: usize,
    saturated: bool,
}

/// The cycle reported when a state first recorded at `first` recurs at `generation`.
pub open spec fn spec_cycle(first: u64, generation: u64) -> Cycle {
    let period = if generation > first {
        (generation - first) as u64
    } else {
        0u64
    };
    Cycle {
        first_generation: first,
        repeated_generation: generation,
        period,
        kind: if period == 1 {
            CycleKind::Stable
        } else {
            CycleKind::Oscillator
        },
    }
}

impl CycleDetector {
    /// Recorded states with the generation each was last seen at, oldest first.
    pub closed spec fn records(&self) -> Seq<((usize, usize, Seq<u64>, Seq<u8>), u64)> {
        self.seen@.map_values(|e: (StateKey, u64)| (e.0.view(), e.1))
    }

    pub closed spec fn spec_max_states(&self) -> usize {
        self.max_states
    }

    pub closed spec fn spec_max_bytes(&self) -> usize {
        self.max_bytes
    }

    pub closed spec fn spec_tracked_bytes(&self) -> usize {
        self.tracked_bytes
    }

    pub closed spec fn spec_saturated(&self) -> bool {
        self.saturated
    }

    /// Records hold distinct states; the payload stays within budget.
    pub closed spec fn wf(&self) -> bool {
        &&& self.tracked_bytes <= self.max_bytes
        &&& forall|i: int, j: int|
            0 <= i < self.seen@.len() && 0 <= j < self.seen@.len() && i != j
                ==> #[trigger] self.seen@[i].0.view() != #[trigger] self.seen@[j].0.view()
    }

    pub fn new(max_states: usize) -> (d: Self)
        ensures
            d.wf(),
            d.records() == Seq::<((usize, usize, Seq<u64>, Seq<u8>), u64)>::empty(),
            d.spec_max_states() == max_states,
            d.spec_max_bytes() == DEFAULT_MAX_CYCLE_BYTES,
            d.spec_tracked_bytes() == 0,
            !d.spec_saturated(),
    {
        Self::with_limits(max_states, DEFAULT_MAX_CYCLE_BYTES)
    }

    /// Construct a detector with explicit state-count and packed-payload limits.
    pub fn with_limits(max_states: usize, max_bytes: usize) -> (d: Self)
        ensures
            d.wf(),
            d.records() == Seq::<((usize, usize, Seq<u64>, Seq<u8>), u64)>::empty(),
            d.spec_max_states() == max_states,
            d.spec_max_bytes() == max_bytes,
            d.spec_tracked_bytes() == 0,
            !d.spec_saturated(),
    {
        let d = CycleDetector {
            seen: Vec::new(),
            max_states,
            max_bytes,
            tracked_bytes: 0,
            saturated: false,
        };
        assert(d.records() =~= Seq::<((usize, usize, Seq<u64>, Seq<u8>), u64)>::empty());
        d
    }

    pub fn max_states(&self) -> (n: usize)
        ensures
            n == self.spec_max_states(),
    {
        self.max_states
    }

    pub fn max_bytes(&self) -> (n: usize)
        ensures
            n == self.spec_max_bytes(),
    {
        self.max_bytes
    }

    pub fn tracked_states(&self) -> (n: usize)
        ensures
            n == self.records().len(),
    {
        self.seen.len()
    }

    /// Bytes used by retained packed cell payloads (excluding bookkeeping).
    pub fn tracked_bytes(&self) -> (n: usize)
        ensures
            n == self.spec_tracked_bytes(),
    {
        self.tracked_bytes
    }

    pub fn is_saturated(&self) -> (b: bool)
        ensures
            b == self.spec_saturated(),
    {
        self.saturated
    }

    /// Observe a state at its generation. Call this for generation zero before
    /// stepping to detect stable states and oscillator periods correctly.
    ///
    /// A recorded state is reported as a cycle from the generation it was last
    /// seen at, which becomes `generation`. A new state is recorded when both
    /// budgets allow, else the detector becomes saturated.
    pub fn observe(&mut self, generation: u64, grid: &Grid) -> (r: Option<Cycle>)
        requires
            old(self).wf(),
        ensures
            final(self).wf(),
            final(self).spec_max_states() == old(self).spec_max_states(),
            final(self).spec_max_bytes() == old(self).spec_max_bytes(),
            ({
                let key = state_key(grid);
                let recs = old(self).records();
                let bytes = key_bytes(key);
                &&& forall|j: int|
                    0 <= j < recs.len() && #[trigger] recs[j].0 == key ==> {
                        &&& r == Some(spec_cycle(recs[j].1, generation))
                        &&& final(self).records() == recs.update(j, (key, generation))
                        &&& final(self).spec_tracked_bytes() == old(self).spec_tracked_bytes()
                        &&& final(self).spec_saturated() == old(self).spec_saturated()
                    }
                &&& (forall|j: int| 0 <= j < recs.len() ==> #[trigger] recs[j].0 != key) ==> {
                    &&& r is None
                    &&& if recs.len() >= old(self).spec_max_states() || bytes
                        > old(self).spec_max_bytes() - old(self).spec_tracked_bytes() {
                        &&& final(self).records() == recs
                        &&& final(self).spec_tracked_bytes() == old(self).spec_tracked_bytes()
                        &&& final(self).spec_saturated()
                    } else {
                        &&& final(self).records() == recs.push((key, generation))
                        &&& final(self).spec_tracked_bytes() == old(self).spec_tracked_bytes()
                            + bytes
                        &&& final(self).spec_saturated() == old(self).spec_saturated()
                    }
                }
            }),
    {
        let state = StateKey::from_grid(grid);
        let mut j: usize = 0;
        while j < self.seen.len()
            invariant
                self.wf(),
                *self == *old(self),
                state.view() == state_key(grid),
                j <= self.seen@.len(),
                forall|k: int| 0 <= k < j ==> #[trigger] self.seen@[k].0.view() != state.view(),
            decreases self.seen@.len() - j,
        {
            if self.seen[j].0.same(&state) {
                let previous_generation = self.seen[j].1;
                let ghost before = self.seen@;
                self.seen.set(j, (state, generation));
                let period = generation.saturating_sub(previous_generation);
                proof {
                    assert forall|k: int| 0 <= k < before.len() && #[trigger] before[k].0.view() == state.view() implies k == j by {
                    }
                    assert(self.records() =~= old(self).records().update(j as int, (state.view(), generation)));
                    assert(before[j as int].0.view() == state.view());
                    assert(before == old(self).seen@);
                    assert(old(self).records()[j as int] == (before[j as int].0.view(), before[j as int].1));
                    assert(old(self).records()[j as int].0 == state_key(grid));
                    assert(old(self).records()[j as int].1 == previous_generation);
                }
                return Some(
                    Cycle {
                        first_generation: previous_generation,
                        repeated_generation: generation,
                        period,
                        kind: if period == 1 {
                            CycleKind::Stable
                        } else {
                            CycleKind::Oscillator
                        },
                    },
                );
            }
            j += 1;
        }
        let state_bytes = state.payload_bytes();
        if self.seen.len() >= self.max_states || state_bytes > self.max_bytes.saturating_sub(
            self.tracked_bytes,
        ) {
            self.saturated = true;
            return None;
        }
        self.seen.push((state, generation));
        self.tracked_bytes = self.tracked_bytes + state_bytes;
        assert(self.records() =~= old(self).records().push((state_key(grid), generation)));
        None
    }
}

} // verus!
