//! FNV grid hashing and hash-window cycle detection.

use vstd::prelude::*;
use crate::grid::Grid;
use std::collections::HashMap;

verus! {

/// FNV-1a 64-bit offset basis.
pub const FNV_OFFSET: u64 = 0xcbf2_9ce4_8422_2325;

/// FNV-1a 64-bit prime.
pub const FNV_PRIME: u64 = 0x100_0000_01b3;

/// One FNV-1a round.
pub open spec fn fnv_step(h: u64, b: u8) -> u64 {
    (h ^ (b as u64)).wrapping_mul(FNV_PRIME)
}

/// FNV-1a hash of a byte sequence.
pub open spec fn fnv_fold(bytes: Seq<u8>) -> u64
    decreases bytes.len(),
{
    if bytes.len() == 0 {
        FNV_OFFSET
    } else {
        fnv_step(fnv_fold(bytes.drop_last()), bytes.last())
    }
}

/// The liveness bits of `cells[start..start + n]`, bit `j` for cell `start + j`.
pub open spec fn pack_bits(cells: Seq<u8>, start: int, n: int) -> u8
    decreases n,
{
    if n <= 0 {
        0
    } else if cells[start + n - 1] != 0 {
        pack_bits(cells, start, n - 1) | (1u8 << ((n - 1) as u8))
    } else {
        pack_bits(cells, start, n - 1)
    }
}

/// Liveness packed eight cells per byte, least significant bit first; the
/// last byte holds the remaining cells.
pub open spec fn packed_cells(cells: Seq<u8>) -> Seq<u8> {
    Seq::new(
        ((cells.len() + 7) / 8) as nat,
        |k: int|
            pack_bits(
                cells,
                8 * k,
                if cells.len() - 8 * k < 8 {
                    cells.len() - 8 * k
                } else {
                    8
                },
            ),
    )
}

/// Bytes hashed for a grid: low two bytes of each dimension, the state count,
/// then packed liveness (binary grids) or raw cell values (multi-state).
pub open spec fn hash_input(g: &Grid) -> Seq<u8> {
    seq![g.w as u8, (g.w >> 8) as u8, g.h as u8, (g.h >> 8) as u8, g.states] + if g.states <= 2 {
        packed_cells(g.cells@)
    } else {
        g.cells@
    }
}

/// On grids with more than two states every cell's value is hashed: two
/// grids of the same size and state count whose cells differ anywhere (a
/// firing cell against a refractory one, say) hash different bytes.
pub proof fn law_hash_input_multistate(a: &Grid, b: &Grid)
    requires
        a.w == b.w,
        a.h == b.h,
        a.states == b.states,
        a.states > 2,
        a.cells@.len() == b.cells@.len(),
        a.cells@ != b.cells@,
    ensures
        hash_input(a) != hash_input(b),
{
    if hash_input(a) == hash_input(b) {
        assert forall|j: int| 0 <= j < a.cells@.len() implies a.cells@[j] == b.cells@[j] by {
            assert(hash_input(a)[5 + j] == a.cells@[j]);
            assert(hash_input(b)[5 + j] == b.cells@[j]);
        }
        assert(a.cells@ =~= b.cells@);
    }
}

/// Bit `k` of the packed byte of `cells[start..start + n]` is the liveness
/// of cell `start + k`; the byte has no bits at or above `n`.
proof fn lemma_pack_bits(cells: Seq<u8>, start: int, n: int)
    requires
        0 <= n <= 8,
    ensures
        forall|k: u8|
            k < n ==> ((#[trigger] (pack_bits(cells, start, n) >> k)) & 1u8) == (if cells[start + k]
                != 0 {
                1u8
            } else {
                0u8
            }),
        n < 8 ==> pack_bits(cells, start, n) < (1u8 << (n as u8)),
    decreases n,
{
    if n > 0 {
        let m = (n - 1) as u8;
        lemma_pack_bits(cells, start, n - 1);
        let x = pack_bits(cells, start, n - 1);
        if cells[start + n - 1] != 0 {
            let y = x | (1u8 << m);
            assert(y == pack_bits(cells, start, n));
            assert forall|k: u8| k < m implies ((y >> k) & 1u8) == ((x >> k) & 1u8) by {
                assert(k < m && m < 8 && x < (1u8 << m) ==> (((x | (1u8 << m)) >> k) & 1u8) == ((x
                    >> k) & 1u8)) by (bit_vector);
            }
            assert(((y >> m) & 1u8) == 1u8) by {
                assert(m < 8 && x < (1u8 << m) ==> (((x | (1u8 << m)) >> m) & 1u8) == 1u8)
                    by (bit_vector);
            }
            if n < 8 {
                let m1 = n as u8;
                assert((x | (1u8 << m)) < (1u8 << m1)) by (bit_vector)
                    requires
                        m < 7,
                        x < (1u8 << m),
                        m1 == m + 1,
                ;
            }
        } else {
            assert(x == pack_bits(cells, start, n));
            assert(((x >> m) & 1u8) == 0u8) by {
                assert(m < 8 && x < (1u8 << m) ==> ((x >> m) & 1u8) == 0u8) by (bit_vector);
            }
            if n < 8 {
                let m1 = n as u8;
                assert(x < (1u8 << m1)) by (bit_vector)
                    requires
                        m < 7,
                        x < (1u8 << m),
                        m1 == m + 1,
                ;
            }
        }
    } else {
        assert(pack_bits(cells, start, 0) == 0u8);
        assert((0u8 as u8) < (1u8 << 0u8)) by (bit_vector);
    }
}

/// On binary grids (at most two states) the liveness of every cell is
/// hashed: two grids of the same size and state count where some cell is live
/// in one and dead in the other hash different bytes.
pub proof fn law_hash_input_binary(a: &Grid, b: &Grid, i: int)
    requires
        a.w == b.w,
        a.h == b.h,
        a.states == b.states,
        a.states <= 2,
        a.cells@.len() == b.cells@.len(),
        0 <= i < a.cells@.len(),
        (a.cells@[i] != 0) != (b.cells@[i] != 0),
    ensures
        hash_input(a) != hash_input(b),
{
    let ca = a.cells@;
    let cb = b.cells@;
    let k = i / 8;
    let off = i % 8;
    let n = if ca.len() - 8 * k < 8 {
        ca.len() - 8 * k
    } else {
        8
    };
    let pa = packed_cells(ca);
    let pb = packed_cells(cb);
    assert(0 <= k < pa.len());
    lemma_pack_bits(ca, 8 * k, n);
    lemma_pack_bits(cb, 8 * k, n);
    assert(8 * k + off == i);
    assert(off < n);
    let o = off as u8;
    assert(((pa[k] >> o) & 1u8) != ((pb[k] >> o) & 1u8));
    assert(hash_input(a)[5 + k] == pa[k]);
    assert(hash_input(b)[5 + k] == pb[k]);
}

/// Hash of a grid's dimensions, state count and cells.
pub open spec fn spec_hash_grid(g: &Grid) -> u64 {
    fnv_fold(hash_input(g))
}

fn fnv_byte(h: u64, b: u8) -> (r: u64)
    ensures
        r == fnv_step(h, b),
{
    (h ^ b as u64).wrapping_mul(FNV_PRIME)
}

/// FNV-1a over all of `bytes`.
fn fnv_bytes(bytes: &[u8]) -> (r: u64)
    ensures
        r == fnv_fold(bytes@),
{
    let mut h = FNV_OFFSET;
    let mut i: usize = 0;
    while i < bytes.len()
        invariant
            i <= bytes@.len(),
            h == fnv_fold(bytes@.take(i as int)),
        decreases bytes@.len() - i,
    {
        assert(bytes@.take(i + 1).drop_last() =~= bytes@.take(i as int));
        h = fnv_byte(h, bytes[i]);
        i += 1;
    }
    assert(bytes@.take(bytes@.len() as int) =~= bytes@);
    h
}

/// Liveness bits packed eight cells per byte.
fn pack_cells(cells: &[u8]) -> (out: Vec<u8>)
    ensures
        out@ == packed_cells(cells@),
{
    let mut out: Vec<u8> = Vec::new();
    let mut acc: u8 = 0;
    let mut bit: u8 = 0;
    let mut i: usize = 0;
    while i < cells.len()
        invariant
            i <= cells@.len(),
            bit < 8,
            i == 8 * out@.len() + bit,
            acc == pack_bits(cells@, 8 * out@.len() as int, bit as int),
            forall|k: int| 0 <= k < out@.len() ==> #[trigger] out@[k] == pack_bits(cells@, 8 * k, 8),
        decreases cells@.len() - i,
    {
        if cells[i] != 0 {
            acc = acc | (1u8 << bit);
        }
        bit += 1;
        i += 1;
        if bit == 8 {
            out.push(acc);
            acc = 0;
            bit = 0;
        }
    }
    let ghost full = out@.len();
    if bit != 0 {
        out.push(acc);
    }
    assert(out@.len() == (cells@.len() + 7) / 8);
    assert forall|k: int| 0 <= k < out@.len() implies out@[k] == packed_cells(cells@)[k] by {
        if k < full {
            assert(cells@.len() - 8 * k >= 8);
        }
    }
    assert(out@ =~= packed_cells(cells@));
    out
}

/// Hash grid cell states with FNV-1a (supports multi-state `u8` cells).
pub fn hash_grid(grid: &Grid) -> (h: u64)
    ensures
        h == spec_hash_grid(grid),
{
    let mut input: Vec<u8> = Vec::new();
    input.push(grid.w as u8);
    input.push((grid.w >> 8) as u8);
    input.push(grid.h as u8);
    input.push((grid.h >> 8) as u8);
    input.push(grid.states);
    let body = if grid.states <= 2 {
        pack_cells(grid.cells.as_slice())
    } else {
        grid.cells.clone()
    };
    let mut i: usize = 0;
    while i < body.len()
        invariant
            i <= body@.len(),
            input@ == seq![grid.w as u8, (grid.w >> 8) as u8, grid.h as u8, (grid.h >> 8) as u8, grid.states] + body@.take(i as int),
        decreases body@.len() - i,
    {
        input.push(body[i]);
        assert(body@.take(i + 1) =~= body@.take(i as int).push(body@[i as int]));
        i += 1;
    }
    assert(body@.take(body@.len() as int) =~= body@);
    fnv_bytes(input.as_slice())
}

/// Result of checking the history ring for a cycle.
#[derive(Debug, Clone, Copy, PartialEq, Eq, Structural)]
pub enum CycleCheck {
    /// No prior match within the window.
    Novel,
    /// Current state matches a state seen `period` generations ago.
    Cycle { period: u64 },
}

/// Ring of recent generation hashes for oscillator / cycle detection.
///
/// Maps hash → generation number. On a repeat of a hash within the window,
/// reports the period (difference). Period-1 is a still life / stable empty.
pub struct History {
    /// hash → generation at which that hash was recorded (within window).
    seen: HashMap<u64, u64>,
    /// Ring of (generation, hash) for eviction when capacity is exceeded.
    ring: Vec<(u64, u64)>,
    /// Next write index into the ring.
    head: usize,
    /// How many slots are filled (≤ capacity).
    len: usize,
    capacity: usize,
    /// The retained `(generation, hash)` records, oldest first.
    window: Ghost<Seq<(u64, u64)>>,
}

proof fn lemma_mod_small(x: int, c: int)
    requires
        0 <= x < c,
    ensures
        x % c == x,
{
    vstd::arithmetic::div_mod::lemma_fundamental_div_mod_converse(x, c, 0, x);
}

proof fn lemma_mod_wrap(x: int, c: int)
    requires
        c <= x < 2 * c,
    ensures
        x % c == x - c,
{
    vstd::arithmetic::div_mod::lemma_fundamental_div_mod_converse(x, c, 1, x - c);
}

/// Ring slot holding the `k`-th oldest record.
pub open spec fn slot(head: int, cap: int, len: int, k: int) -> int {
    (head + cap - len + k) % cap
}

/// Outcome of observing a state with hash `h` at `generation`, given the
/// retained records `win` of a window of capacity `cap`: a retained record with
/// hash `h` gives the period since it (nothing is recorded); otherwise the
/// record is appended, the oldest dropped when the window is full.
pub open spec fn observe_outcome(
    win: Seq<(u64, u64)>,
    cap: nat,
    h: u64,
    generation: u64,
    new_win: Seq<(u64, u64)>,
    r: CycleCheck,
) -> bool {
    &&& forall|k: int|
        0 <= k < win.len() && #[trigger] win[k].1 == h ==> {
            &&& new_win == win
            &&& r == (if generation > win[k].0 {
                CycleCheck::Cycle { period: (generation - win[k].0) as u64 }
            } else {
                CycleCheck::Novel
            })
        }
    &&& (forall|k: int| 0 <= k < win.len() ==> #[trigger] win[k].1 != h) ==> {
        &&& r == CycleCheck::Novel
        &&& new_win == (if win.len() == cap {
            win.drop_first().push((generation, h))
        } else {
            win.push((generation, h))
        })
    }
}

/// A state recorded at generation `g` and observed again `d > 0` generations
/// later is reported as a cycle of period `d`.
pub proof fn law_repeat_reports_period(
    win: Seq<(u64, u64)>,
    cap: nat,
    h: u64,
    g: u64,
    d: u64,
    win1: Seq<(u64, u64)>,
    r1: CycleCheck,
    win2: Seq<(u64, u64)>,
    r2: CycleCheck,
)
    requires
        cap >= 1,
        win.len() <= cap,
        forall|k: int| 0 <= k < win.len() ==> #[trigger] win[k].1 != h,
        d > 0,
        g + d <= u64::MAX,
        observe_outcome(win, cap, h, g, win1, r1),
        observe_outcome(win1, cap, h, (g + d) as u64, win2, r2),
    ensures
        r1 == CycleCheck::Novel,
        r2 == (CycleCheck::Cycle { period: d }),
        win2 == win1,
{
    let k = win1.len() - 1;
    assert(win1[k] == (g, h));
    assert(win1[k].1 == h);
}

/// Observing keeps a window within its capacity: whatever the outcome, the
/// new window holds at most `cap` records.
pub proof fn law_observe_within_capacity(
    win: Seq<(u64, u64)>,
    cap: nat,
    h: u64,
    generation: u64,
    new_win: Seq<(u64, u64)>,
    r: CycleCheck,
)
    requires
        cap >= 1,
        win.len() <= cap,
        observe_outcome(win, cap, h, generation, new_win, r),
    ensures
        new_win.len() <= cap,
{
    if exists|k: int| 0 <= k < win.len() && #[trigger] win[k].1 == h {
        let k = choose|k: int| 0 <= k < win.len() && #[trigger] win[k].1 == h;
        assert(new_win == win);
    }
}

impl History {
    /// A history's window never holds more records than its capacity, which
    /// is at least 1.
    pub proof fn lemma_window_bound(&self)
        requires
            self.wf(),
        ensures
            1 <= self.spec_capacity(),
            self.window().len() <= self.spec_capacity(),
    {
    }

    /// The retained `(generation, hash)` records, oldest first.
    pub closed spec fn window(&self) -> Seq<(u64, u64)> {
        self.window@
    }

    /// Maximum number of records retained.
    pub closed spec fn spec_capacity(&self) -> nat {
        self.capacity as nat
    }

    /// Internal consistency of ring, map and window.
    pub closed spec fn wf(&self) -> bool {
        &&& self.capacity >= 1
        &&& self.ring@.len() == self.capacity
        &&& self.head < self.capacity
        &&& self.len <= self.capacity
        &&& self.window@.len() == self.len
        &&& forall|k: int|
            0 <= k < self.len ==> #[trigger] self.window@[k] == self.ring@[slot(
                self.head as int,
                self.capacity as int,
                self.len as int,
                k,
            )]
        &&& forall|k1: int, k2: int|
            0 <= k1 < self.len && 0 <= k2 < self.len && k1 != k2 ==> #[trigger] self.window@[k1].1
                != #[trigger] self.window@[k2].1
        &&& forall|h: u64|
            #[trigger] self.seen@.contains_key(h) <==> exists|k: int|
                0 <= k < self.len && #[trigger] self.window@[k].1 == h
        &&& forall|k: int|
            0 <= k < self.len ==> #[trigger] self.seen@[self.window@[k].1] == self.window@[k].0
    }

    /// Create a history that retains at most `capacity` recent generations.
    /// Capacity of 0 is treated as 1.
    pub fn new(capacity: usize) -> (r: Self)
        ensures
            r.wf(),
            r.window() == Seq::<(u64, u64)>::empty(),
            r.spec_capacity() == (if capacity == 0 { 1 } else { capacity }),
    {
        let capacity = if capacity == 0 {
            1
        } else {
            capacity
        };
        let mut ring: Vec<(u64, u64)> = Vec::new();
        let mut i: usize = 0;
        while i < capacity
            invariant
                i <= capacity,
                ring@.len() == i,
            decreases capacity - i,
        {
            ring.push((0, 0));
            i += 1;
        }
        History {
            seen: HashMap::with_capacity(capacity),
            ring,
            head: 0,
            len: 0,
            capacity,
            window: Ghost(Seq::empty()),
        }
    }

    /// Default window: enough for long-period oscillators (e.g. pentadecathlon = 15).
    pub fn default_window() -> (r: Self)
        ensures
            r.wf(),
            r.window() == Seq::<(u64, u64)>::empty(),
            r.spec_capacity() == 4096,
    {
        Self::new(4096)
    }

    /// Record the grid at `generation` and check for a cycle.
    ///
    /// Call this **before** stepping, so gen 0 is recorded, then after each step.
    /// If the current hash matches one recorded at gen `g0` within the window,
    /// returns `Cycle { period: generation - g0 }` (or `Novel` when that is 0)
    /// and records nothing; otherwise records `(generation, hash)`, dropping the
    /// oldest record when the window is full, and returns `Novel`.
    pub fn observe(&mut self, grid: &Grid, generation: u64) -> (r: CycleCheck)
        requires
            old(self).wf(),
        ensures
            final(self).wf(),
            final(self).spec_capacity() == old(self).spec_capacity(),
            observe_outcome(
                old(self).window(),
                old(self).spec_capacity(),
                spec_hash_grid(grid),
                generation,
                final(self).window(),
                r,
            ),
    {
        broadcast use vstd::std_specs::hash::group_hash_axioms;

        let h = hash_grid(grid);
        match self.seen.get(&h) {
            Some(prev) => {
                let prev_gen = *prev;
                proof {
                    let k = choose|k: int| 0 <= k < self.len && #[trigger] self.window@[k].1 == h;
                    assert(self.seen@[self.window@[k].1] == self.window@[k].0);
                }
                let period = generation.saturating_sub(prev_gen);
                if period > 0 {
                    return CycleCheck::Cycle { period };
                }
                return CycleCheck::Novel;
            },
            None => {},
        }
        let ghost old_win = self.window@;
        let cap = self.capacity;
        let head = self.head;
        let old_len = self.len;
        if self.len == self.capacity {
            let (old_gen, old_h) = self.ring[self.head];
            proof {
                lemma_mod_small(head as int, cap as int);
                assert(old_win[0] == self.ring@[slot(head as int, cap as int, old_len as int, 0)]);
                assert(self.seen@[old_win[0].1] == old_win[0].0);
            }
            let still = match self.seen.get(&old_h) {
                Some(g) => *g == old_gen,
                None => false,
            };
            if still {
                self.seen.remove(&old_h);
            }
        } else {
            self.len += 1;
        }
        self.ring.set(self.head, (generation, h));
        self.seen.insert(h, generation);
        self.head = (self.head + 1) % self.capacity;
        let ghost new_win = if old_len == cap {
            old_win.drop_first().push((generation, h))
        } else {
            old_win.push((generation, h))
        };
        self.window = Ghost(new_win);
        proof {
            let c = cap as int;
            let hd = head as int;
            let l = old_len as int;
            let nl = self.len as int;
            let nh = self.head as int;
            if hd + 1 < c {
                lemma_mod_small(hd + 1, c);
            } else {
                lemma_mod_wrap(hd + 1, c);
            }
            assert forall|k: int| 0 <= k < nl implies #[trigger] new_win[k] == self.ring@[slot(
                nh,
                c,
                nl,
                k,
            )] by {
                let ns = nh + c - nl + k;
                if ns < c {
                    lemma_mod_small(ns, c);
                } else {
                    lemma_mod_wrap(ns, c);
                }
                if l == c {
                    if k < c - 1 {
                        let os = hd + c - l + (k + 1);
                        if os < c {
                            lemma_mod_small(os, c);
                        } else {
                            lemma_mod_wrap(os, c);
                        }
                        assert(old_win[k + 1] == old(self).ring@[slot(hd, c, l, k + 1)]);
                    }
                } else {
                    if k < l {
                        let os = hd + c - l + k;
                        if os < c {
                            lemma_mod_small(os, c);
                        } else {
                            lemma_mod_wrap(os, c);
                        }
                        assert(old_win[k] == old(self).ring@[slot(hd, c, l, k)]);
                    }
                }
            }
            assert forall|h2: u64| #[trigger] self.seen@.contains_key(h2) <==> exists|k: int|
                0 <= k < nl && #[trigger] new_win[k].1 == h2 by {
                if self.seen@.contains_key(h2) {
                    if h2 == h {
                        assert(new_win[nl - 1].1 == h2);
                    } else {
                        assert(old(self).seen@.contains_key(h2));
                        let k = choose|k: int| 0 <= k < l && #[trigger] old_win[k].1 == h2;
                        if l == c {
                            assert(k != 0);
                            assert(new_win[k - 1].1 == h2);
                        } else {
                            assert(new_win[k].1 == h2);
                        }
                    }
                }
                if exists|k: int| 0 <= k < nl && #[trigger] new_win[k].1 == h2 {
                    let k = choose|k: int| 0 <= k < nl && #[trigger] new_win[k].1 == h2;
                    if h2 != h {
                        if l == c {
                            assert(old_win[k + 1].1 == h2);
                            assert(old_win[0].1 != h2);
                        } else {
                            assert(old_win[k].1 == h2);
                        }
                        assert(old(self).seen@.contains_key(h2));
                    }
                }
            }
            assert forall|k: int| 0 <= k < nl implies #[trigger] self.seen@[new_win[k].1]
                == new_win[k].0 by {
                if k < nl - 1 {
                    if l == c {
                        assert(old(self).seen@[old_win[k + 1].1] == old_win[k + 1].0);
                        assert(old_win[k + 1].1 != old_win[0].1);
                    } else {
                        assert(old(self).seen@[old_win[k].1] == old_win[k].0);
                    }
                }
            }
            assert(self.capacity >= 1);
            assert(self.ring@.len() == self.capacity);
            assert(self.head < self.capacity);
            assert(self.len <= self.capacity);
            assert(self.window@.len() == self.len);
            assert forall|k1: int, k2: int|
                0 <= k1 < nl && 0 <= k2 < nl && k1 != k2 implies #[trigger] new_win[k1].1
                != #[trigger] new_win[k2].1 by {
                if l == c {
                    if k1 < nl - 1 && k2 < nl - 1 {
                        assert(old_win[k1 + 1].1 != old_win[k2 + 1].1);
                    } else if k1 < nl - 1 {
                        assert(old_win[k1 + 1].1 != h);
                    } else {
                        assert(old_win[k2 + 1].1 != h);
                    }
                } else {
                    if k1 < nl - 1 && k2 < nl - 1 {
                        assert(old_win[k1].1 != old_win[k2].1);
                    } else if k1 < nl - 1 {
                        assert(old_win[k1].1 != h);
                    } else {
                        assert(old_win[k2].1 != h);
                    }
                }
            }
        }
        CycleCheck::Novel
    }

    /// Number of distinct generations currently tracked.
    pub fn len(&self) -> (n: usize)
        requires
            self.wf(),
        ensures
            n == self.window().len(),
    {
        self.len
    }

    /// No generation is tracked yet.
    pub fn is_empty(&self) -> (b: bool)
        requires
            self.wf(),
        ensures
            b == (self.window().len() == 0),
    {
        self.len == 0
    }
}

} // verus!
