use vstd::prelude::*;

use crate::grid::all_dead;
use crate::grid::dead_grid;
use crate::grid::grid_wf;
use crate::grid::grid_width;
use crate::grid::step_grid;
use crate::grid::Grid;

verus! {

/// An immutable snapshot: a generation index paired with the grid it held.
pub struct State {
    pub generation: usize,
    pub grid: Grid,
}

impl State {
    pub fn new(generation: usize, grid: Grid) -> (s: State)
        ensures
            s.generation == generation,
            s.grid == grid,
    {
        State { generation, grid }
    }
}

impl Clone for State {
    /// A copy that keeps the generation index and every cell of the grid.
    fn clone(&self) -> (r: Self)
        ensures
            r.generation == self.generation,
            r.grid@ == self.grid@,
    {
        State { generation: self.generation, grid: self.grid.clone() }
    }
}

/// The mathematical content of a simulation: the fixed dimensions, the
/// ordered record of previously visited states, and the current state.
pub struct GameModel {
    pub width: nat,
    pub height: nat,
    pub hist: Seq<(nat, Seq<Seq<bool>>)>,
    pub gen: nat,
    pub grid: Seq<Seq<bool>>,
}

impl GameModel {
    /// The grid has exactly the simulation's fixed dimensions.
    pub open spec fn grid_ok(self, g: Seq<Seq<bool>>) -> bool {
        &&& g.len() == self.height
        &&& forall|i: int| 0 <= i < g.len() ==> (#[trigger] g[i]).len() == self.width
    }

    /// The simulation invariant: every grid has the fixed dimensions, and the
    /// history holds generation `i` at position `i` (so recorded generations
    /// start at 0 and rise by exactly 1, and no generation is recorded twice).
    pub open spec fn wf(self) -> bool {
        &&& self.grid_ok(self.grid)
        &&& forall|i: int|
            0 <= i < self.hist.len() ==> (#[trigger] self.hist[i]).0 == i && self.grid_ok(
                self.hist[i].1,
            )
    }
}

pub open spec fn state_model(s: State) -> (nat, Seq<Seq<bool>>) {
    (s.generation as nat, s.grid@)
}

/// The generation of the earliest recorded state whose grid equals `g`:
/// the first occurrence wins.
pub open spec fn find_match(hist: Seq<(nat, Seq<Seq<bool>>)>, g: Seq<Seq<bool>>) -> Option<nat>
    decreases hist.len(),
{
    if hist.len() == 0 {
        None
    } else if hist[0].1 == g {
        Some(hist[0].0)
    } else {
        find_match(hist.subrange(1, hist.len() as int), g)
    }
}

/// One generation step. The state that was current joins the history (unless
/// a rewind already put its generation there), the rule produces the next
/// grid, and the new grid is compared against every recorded grid; a match
/// reports the matched state's generation as the cycle's start.
pub open spec fn tick_model(m: GameModel) -> (GameModel, Option<nat>) {
    let hist1 = if m.gen == m.hist.len() {
        m.hist.push((m.gen, m.grid))
    } else {
        m.hist
    };
    let g2 = step_grid(m.grid);
    let m2 = GameModel { hist: hist1, gen: m.gen + 1, grid: g2, ..m };
    (m2, find_match(hist1, g2))
}

/// Up to `fuel` steps, stopping at the first reported cycle.
pub open spec fn run_model(m: GameModel, fuel: nat) -> (GameModel, Option<nat>)
    decreases fuel,
{
    if fuel == 0 {
        (m, None)
    } else {
        let t = tick_model(m);
        if t.1 is Some {
            t
        } else {
            run_model(t.0, (fuel - 1) as nat)
        }
    }
}

proof fn lemma_find_match_at(hist: Seq<(nat, Seq<Seq<bool>>)>, g: Seq<Seq<bool>>, i: int)
    requires
        0 <= i < hist.len(),
        hist[i].1 == g,
        forall|j: int| 0 <= j < i ==> (#[trigger] hist[j]).1 != g,
    ensures
        find_match(hist, g) == Some(hist[i].0),
    decreases i,
{
    if i > 0 {
        let tail = hist.subrange(1, hist.len() as int);
        assert(forall|j: int| 0 <= j < i - 1 ==> (#[trigger] tail[j]).1 != g);
        lemma_find_match_at(tail, g, i - 1);
    }
}

proof fn lemma_find_match_none(hist: Seq<(nat, Seq<Seq<bool>>)>, g: Seq<Seq<bool>>)
    requires
        forall|j: int| 0 <= j < hist.len() ==> (#[trigger] hist[j]).1 != g,
    ensures
        find_match(hist, g) is None,
    decreases hist.len(),
{
    if hist.len() > 0 {
        let tail = hist.subrange(1, hist.len() as int);
        assert(forall|j: int| 0 <= j < tail.len() ==> (#[trigger] tail[j]).1 != g);
        lemma_find_match_none(tail, g);
    }
}

/// What a reported match means: `None` only when no recorded grid equals
/// `g`, and `Some(n)` only when some recorded state holds a grid equal to
/// `g`, carries generation `n`, and no earlier recorded state matches — the
/// first occurrence wins.
pub proof fn lemma_find_match_first(hist: Seq<(nat, Seq<Seq<bool>>)>, g: Seq<Seq<bool>>)
    ensures
        match find_match(hist, g) {
            None => forall|i: int| 0 <= i < hist.len() ==> (#[trigger] hist[i]).1 != g,
            Some(n) => exists|i: int|
                0 <= i < hist.len() && (#[trigger] hist[i]).1 == g && hist[i].0 == n && (forall|
                    j: int,
                |
                    0 <= j < i ==> (#[trigger] hist[j]).1 != g),
        },
    decreases hist.len(),
{
    if hist.len() > 0 {
        let tail = hist.subrange(1, hist.len() as int);
        if hist[0].1 == g {
            let i = 0int;
            assert(0 <= i < hist.len() && hist[i].1 == g && hist[i].0 == find_match(
                hist,
                g,
            ).unwrap() && (forall|j: int| 0 <= j < i ==> (#[trigger] hist[j]).1 != g));
        } else {
            lemma_find_match_first(tail, g);
            match find_match(hist, g) {
                None => {
                    assert forall|i: int| 0 <= i < hist.len() implies (#[trigger] hist[i]).1
                        != g by {
                        if i > 0 {
                            assert(tail[i - 1] == hist[i]);
                        }
                    }
                },
                Some(n) => {
                    let k = choose|k: int|
                        0 <= k < tail.len() && (#[trigger] tail[k]).1 == g && tail[k].0 == n && (
                        forall|j: int| 0 <= j < k ==> (#[trigger] tail[j]).1 != g);
                    let i = k + 1;
                    assert forall|j: int| 0 <= j < i implies (#[trigger] hist[j]).1 != g by {
                        if j > 0 {
                            assert(tail[j - 1] == hist[j]);
                        }
                    }
                    assert(0 <= i < hist.len() && hist[i].1 == g && hist[i].0 == n);
                },
            }
        }
    }
}

/// Owns one grid's lifecycle across generations: the current state, the
/// history of past states used as the cycle-detection corpus, and the fixed
/// dimensions used for resets.
pub struct Game {
    pub previous_states: Vec<State>,
    pub width: usize,
    pub height: usize,
    pub current_state: State,
}

impl View for Game {
    type V = GameModel;

    open spec fn view(&self) -> GameModel {
        GameModel {
            width: self.width as nat,
            height: self.height as nat,
            hist: self.previous_states@.map_values(|s: State| state_model(s)),
            gen: self.current_state.generation as nat,
            grid: self.current_state.grid@,
        }
    }
}

impl Game {
    /// A fresh simulation: empty history, generation 0, all-dead grid.
    pub fn new(width: usize, height: usize) -> (g: Game)
        ensures
            g@.width == width,
            g@.height == height,
            g@.hist == Seq::<(nat, Seq<Seq<bool>>)>::empty(),
            g@.gen == 0,
            g@.grid == dead_grid(width as nat, height as nat),
            g@.wf(),
    {
        let initial_grid = Grid::new(width, height);
        let g = Game {
            previous_states: Vec::new(),
            width,
            height,
            current_state: State::new(0, initial_grid),
        };
        proof {
            assert(g@.hist =~= Seq::<(nat, Seq<Seq<bool>>)>::empty());
        }
        g
    }

    /// Back to a fresh simulation: the history is cleared and the current
    /// state becomes an all-dead grid at generation 0.
    pub fn reset(&mut self)
        ensures
            final(self)@.width == old(self)@.width,
            final(self)@.height == old(self)@.height,
            final(self)@.hist == Seq::<(nat, Seq<Seq<bool>>)>::empty(),
            final(self)@.gen == 0,
            final(self)@.grid == dead_grid(old(self)@.width, old(self)@.height),
            final(self)@.wf(),
    {
        self.previous_states.clear();
        self.current_state = State::new(0, Grid::new(self.width, self.height));
        proof {
            assert(self@.hist =~= Seq::<(nat, Seq<Seq<bool>>)>::empty());
        }
    }

    /// Set every cell of the current grid by a fair coin; the generation and
    /// the history are untouched.
    pub fn randomize(&mut self)
        requires
            old(self)@.wf(),
        ensures
            final(self)@.wf(),
            final(self)@.width == old(self)@.width,
            final(self)@.height == old(self)@.height,
            final(self)@.hist == old(self)@.hist,
            final(self)@.gen == old(self)@.gen,
            final(self)@.grid_ok(final(self)@.grid),
    {
        self.current_state.grid.randomize();
        proof {
            assert forall|i: int| 0 <= i < self@.grid.len() implies (#[trigger] self@.grid[i]).len()
                == self@.width by {
                assert(self@.grid[i].len() == old(self)@.grid[i].len());
            }
            assert(self@.grid_ok(self@.grid));
            assert(self@.hist == old(self)@.hist);
            assert(forall|i: int|
                0 <= i < self@.hist.len() ==> (#[trigger] self@.hist[i]).0 == i && self@.grid_ok(
                    self@.hist[i].1,
                ));
        }
    }

    /// Compute the next generation from a read-only snapshot of the current
    /// grid, cell by cell under the survival/birth rule, and advance the
    /// generation counter; the history is untouched.
    pub fn update(&mut self)
        requires
            old(self)@.wf(),
            old(self)@.gen < usize::MAX,
        ensures
            final(self)@.wf(),
            final(self)@.width == old(self)@.width,
            final(self)@.height == old(self)@.height,
            final(self)@.hist == old(self)@.hist,
            final(self)@.gen == old(self)@.gen + 1,
            final(self)@.grid == step_grid(old(self)@.grid),
    {
        let ghost g0 = self@.grid;
        let height = self.current_state.grid.data.len();
        let mut new_data: Vec<Vec<bool>> = Vec::new();
        let mut x: usize = 0;
        while x < height
            invariant
                x <= height,
                *self == *old(self),
                self@.wf(),
                height == g0.len(),
                g0 == self@.grid,
                new_data@.len() == x,
                forall|i: int| 0 <= i < x ==> (#[trigger] new_data@[i])@ == step_grid(g0)[i],
            decreases height - x,
        {
            let width = self.current_state.grid.data[x].len();
            let mut row: Vec<bool> = Vec::new();
            let mut y: usize = 0;
            while y < width
                invariant
                    y <= width,
                    x < height,
                    *self == *old(self),
                    self@.wf(),
                    height == g0.len(),
                    g0 == self@.grid,
                    width == g0[x as int].len(),
                    row@.len() == y,
                    forall|j: int| 0 <= j < y ==> (#[trigger] row@[j]) == step_grid(g0)[x as int][j],
                decreases width - y,
            {
                let alive_neighbors = self.current_state.grid.count_alive_neighbors(x, y);
                let cell = self.current_state.grid.data[x][y];
                let next = if cell {
                    alive_neighbors == 2 || alive_neighbors == 3
                } else {
                    alive_neighbors == 3
                };
                row.push(next);
                y += 1;
            }
            proof {
                assert(row@ =~= step_grid(g0)[x as int]);
            }
            new_data.push(row);
            x += 1;
        }
        self.current_state.grid.data = new_data;
        self.current_state.generation = self.current_state.generation + 1;
        proof {
            assert(self@.grid =~~= step_grid(g0));
            assert(self@.hist =~= old(self)@.hist);
        }
    }

    /// One generation step with cycle detection, as `tick_model` says: the
    /// state that was current is recorded, the next grid is computed and
    /// compared against every recorded grid, and the generation of the
    /// earliest match — the cycle's start — is returned, or `None` when the
    /// new grid is unseen.
    pub fn tick(&mut self) -> (r: Option<usize>)
        requires
            old(self)@.wf(),
            old(self)@.gen < usize::MAX,
        ensures
            final(self)@.wf(),
            final(self)@ == tick_model(old(self)@).0,
            match r {
                Some(k) => tick_model(old(self)@).1 == Some(k as nat),
                None => tick_model(old(self)@).1 is None,
            },
    {
        if self.current_state.generation == self.previous_states.len() {
            let snapshot = self.current_state.clone();
            self.previous_states.push(snapshot);
            proof {
                assert(self@.hist =~= old(self)@.hist.push(
                    (old(self)@.gen, old(self)@.grid),
                ));
            }
        }
        let ghost hist1 = self@.hist;
        proof {
            assert(hist1 == tick_model(old(self)@).0.hist);
            assert(forall|i: int|
                0 <= i < hist1.len() ==> (#[trigger] hist1[i]).0 == i && old(self)@.grid_ok(
                    hist1[i].1,
                ));
        }
        self.update();
        let ghost g2 = self@.grid;
        proof {
            assert(self@ =~~= tick_model(old(self)@).0);
        }
        let n = self.previous_states.len();
        let mut i: usize = 0;
        while i < n
            invariant
                i <= n,
                self@.wf(),
                self@ == tick_model(old(self)@).0,
                n == self.previous_states@.len(),
                hist1 == self@.hist,
                g2 == self@.grid,
                forall|j: int| 0 <= j < i ==> (#[trigger] hist1[j]).1 != g2,
            decreases n - i,
        {
            let matched = self.previous_states[i].grid.equals(&self.current_state.grid);
            if matched {
                proof {
                    assert(hist1[i as int].1 == g2);
                    lemma_find_match_at(hist1, g2, i as int);
                }
                return Some(self.previous_states[i].generation);
            }
            proof {
                assert(hist1[i as int].1 != g2);
            }
            i += 1;
        }
        proof {
            lemma_find_match_none(hist1, g2);
        }
        None
    }

    /// Rewind: if a state with this exact generation index is recorded, it
    /// becomes the current state; the history itself is untouched either way.
    /// An unknown generation is a no-op, not an error.
    pub fn revert_to(&mut self, generation: usize)
        requires
            old(self)@.wf(),
        ensures
            final(self)@.wf(),
            final(self)@.width == old(self)@.width,
            final(self)@.height == old(self)@.height,
            final(self)@.hist == old(self)@.hist,
            generation < old(self)@.hist.len() ==> final(self)@.gen == generation
                && final(self)@.grid == old(self)@.hist[generation as int].1,
            generation >= old(self)@.hist.len() ==> final(self)@ == old(self)@,
    {
        let n = self.previous_states.len();
        let mut i: usize = 0;
        while i < n
            invariant
                i <= n,
                *self == *old(self),
                self@.wf(),
                n == self.previous_states@.len(),
                forall|j: int|
                    0 <= j < i ==> (#[trigger] self@.hist[j]).0 != generation as nat,
            decreases n - i,
        {
            if self.previous_states[i].generation == generation {
                let found = self.previous_states[i].clone();
                self.current_state = found;
                proof {
                    assert(self@.hist =~= old(self)@.hist);
                    assert(old(self)@.hist[i as int].0 == i as nat);
                }
                return;
            }
            i += 1;
        }
        proof {
            assert(generation >= old(self)@.hist.len()) by {
                if generation < old(self)@.hist.len() {
                    assert(old(self)@.hist[generation as int].0 == generation as nat);
                }
            }
        }
    }

    /// Rewind to the first recorded state — the one at generation 0. With no
    /// history recorded yet this is a no-op.
    pub fn revert_to_initial(&mut self)
        requires
            old(self)@.wf(),
        ensures
            final(self)@.wf(),
            final(self)@.width == old(self)@.width,
            final(self)@.height == old(self)@.height,
            final(self)@.hist == old(self)@.hist,
            old(self)@.hist.len() > 0 ==> final(self)@.gen == 0
                && final(self)@.grid == old(self)@.hist[0].1,
            old(self)@.hist.len() == 0 ==> final(self)@ == old(self)@,
    {
        if self.previous_states.len() > 0 {
            let initial_state = self.previous_states[0].clone();
            self.current_state = initial_state;
            proof {
                assert(self@.hist =~= old(self)@.hist);
                assert(old(self)@.hist[0] == state_model(old(self).previous_states@[0]));
                assert(old(self)@.hist[0].0 == 0);
                assert(old(self)@.grid_ok(old(self)@.hist[0].1));
            }
        }
    }

    /// Step repeatedly, up to `max_generation` times, and return the start
    /// generation of the first detected cycle, or `None` when the cap is
    /// reached first.
    pub fn run_until_loop(&mut self, max_generation: usize) -> (r: Option<usize>)
        requires
            old(self)@.wf(),
            old(self)@.gen + max_generation <= usize::MAX,
        ensures
            final(self)@.wf(),
            final(self)@ == run_model(old(self)@, max_generation as nat).0,
            match r {
                Some(k) => run_model(old(self)@, max_generation as nat).1 == Some(k as nat),
                None => run_model(old(self)@, max_generation as nat).1 is None,
            },
    {
        let mut t: usize = 0;
        while t < max_generation
            invariant
                t <= max_generation,
                self@.wf(),
                self@.gen == old(self)@.gen + t,
                old(self)@.gen + max_generation <= usize::MAX,
                run_model(old(self)@, max_generation as nat) == run_model(
                    self@,
                    (max_generation - t) as nat,
                ),
            decreases max_generation - t,
        {
            let ghost pre = self@;
            let r = self.tick();
            match r {
                Some(k) => {
                    proof {
                        assert(run_model(pre, (max_generation - t) as nat) == (
                        self@,
                        Some(k as nat),
                        ));
                    }
                    return Some(k);
                },
                None => {
                    proof {
                        assert(run_model(pre, (max_generation - t) as nat) == run_model(
                            self@,
                            (max_generation - t - 1) as nat,
                        ));
                    }
                    t += 1;
                },
            }
        }
        None
    }

    /// True iff every cell of the current grid is dead.
    pub fn is_empty(&self) -> (r: bool)
        ensures
            r == all_dead(self@.grid),
    {
        self.current_state.grid.is_empty()
    }

    /// The generation index of the current state.
    pub fn current_generation(&self) -> (g: usize)
        ensures
            g == self@.gen,
    {
        self.current_state.generation
    }

    /// A read-only view of the current grid.
    pub fn current_grid(&self) -> (g: &Grid)
        ensures
            g@ == self@.grid,
    {
        &self.current_state.grid
    }
}

/// Stepping preserves the simulation invariant.
pub proof fn lemma_tick_preserves_wf(m: GameModel)
    requires
        m.wf(),
    ensures
        tick_model(m).0.wf(),
{
    let m2 = tick_model(m).0;
    assert forall|i: int| 0 <= i < m2.hist.len() implies (#[trigger] m2.hist[i]).0 == i
        && m2.grid_ok(m2.hist[i].1) by {
        if i < m.hist.len() {
            assert(m2.hist[i] == m.hist[i]);
        }
    }
    assert forall|i: int| 0 <= i < m2.grid.len() implies (#[trigger] m2.grid[i]).len()
        == m2.width by {
        assert(m2.grid[i] == step_grid(m.grid)[i]);
        assert(step_grid(m.grid)[i].len() == m.grid[i].len());
    }
}

/// Stepping never rewrites recorded history: every state already recorded is
/// still there, unchanged and at the same position, after a tick.
pub proof fn lemma_tick_preserves_history(m: GameModel)
    ensures
        tick_model(m).0.hist.len() >= m.hist.len(),
        forall|i: int| 0 <= i < m.hist.len() ==> #[trigger] tick_model(m).0.hist[i] == m.hist[i],
{
}

/// Running any number of steps never rewrites recorded history; in
/// particular the state recorded at generation 0 — the initial grid — is
/// still the first entry afterwards, so a later rewind can restore it.
pub proof fn lemma_run_preserves_history(m: GameModel, fuel: nat)
    requires
        m.wf(),
    ensures
        run_model(m, fuel).0.wf(),
        run_model(m, fuel).0.hist.len() >= m.hist.len(),
        forall|i: int| 0 <= i < m.hist.len() ==> #[trigger] run_model(m, fuel).0.hist[i]
            == m.hist[i],
    decreases fuel,
{
    if fuel > 0 {
        let t = tick_model(m);
        lemma_tick_preserves_wf(m);
        lemma_tick_preserves_history(m);
        if t.1 is None {
            lemma_run_preserves_history(t.0, (fuel - 1) as nat);
            assert forall|i: int| 0 <= i < m.hist.len() implies #[trigger] run_model(
                m,
                fuel,
            ).0.hist[i] == m.hist[i] by {
                assert(run_model(m, fuel).0.hist[i] == t.0.hist[i]);
            }
        }
    }
}

/// History monotonicity: recorded generations start at 0 and consecutive
/// recorded generations differ by exactly 1.
pub proof fn lemma_history_monotonic(m: GameModel)
    requires
        m.wf(),
    ensures
        m.hist.len() > 0 ==> m.hist[0].0 == 0,
        forall|i: int|
            0 <= i && i + 1 < m.hist.len() ==> #[trigger] m.hist[i + 1].0 == m.hist[i].0 + 1,
{
}

/// No false cycle truncation: when a tick reports a cycle starting at
/// generation `n`, the grid recorded at generation `n` equals the new grid
/// and no earlier recorded generation does — the report is the true first
/// repeat, never an intermediate near-miss; and when it reports nothing, no
/// recorded grid matches at all.
pub proof fn lemma_cycle_start_is_first_match(m: GameModel)
    requires
        m.wf(),
    ensures
        match tick_model(m).1 {
            None => forall|i: int|
                0 <= i < tick_model(m).0.hist.len() ==> (#[trigger] tick_model(m).0.hist[i]).1
                    != tick_model(m).0.grid,
            Some(n) => n < tick_model(m).0.hist.len() && tick_model(m).0.hist[n as int].1
                == tick_model(m).0.grid && (forall|j: int|
                0 <= j < n ==> (#[trigger] tick_model(m).0.hist[j]).1 != tick_model(m).0.grid),
        },
{
    let hist1 = tick_model(m).0.hist;
    let g2 = tick_model(m).0.grid;
    lemma_tick_preserves_wf(m);
    lemma_find_match_first(hist1, g2);
    if tick_model(m).1 is Some {
        let n = tick_model(m).1.unwrap();
        let i = choose|i: int|
            0 <= i < hist1.len() && (#[trigger] hist1[i]).1 == g2 && hist1[i].0 == n && (forall|
                j: int,
            |
                0 <= j < i ==> (#[trigger] hist1[j]).1 != g2);
        assert(hist1[i].0 == i);
    }
}

/// Idempotence of rewinding: from a fresh simulation, the first step records
/// the starting grid as generation 0, and no amount of further stepping
/// disturbs that record — so rewinding to the initial generation always
/// restores exactly the grid the run began with.
pub proof fn lemma_initial_grid_is_recorded(m: GameModel, fuel: nat)
    requires
        m.wf(),
        m.hist.len() == 0,
        m.gen == 0,
        fuel >= 1,
    ensures
        run_model(m, fuel).0.hist.len() >= 1,
        run_model(m, fuel).0.hist[0] == (0nat, m.grid),
{
    let t = tick_model(m);
    lemma_tick_preserves_wf(m);
    assert(t.0.hist[0] == (0nat, m.grid));
    if t.1 is None {
        lemma_run_preserves_history(t.0, (fuel - 1) as nat);
    }
}

/// An all-dead grid repeats immediately: from a fresh simulation whose grid
/// is all dead, the very first step reports a cycle starting at generation
/// 0, and the grid of the resulting state is still all dead.
pub proof fn lemma_run_on_dead_grid(m: GameModel, fuel: nat)
    requires
        m.wf(),
        m.hist.len() == 0,
        m.gen == 0,
        all_dead(m.grid),
        fuel >= 1,
    ensures
        run_model(m, fuel).1 == Some(0nat),
        run_model(m, fuel).0.gen == 1,
        all_dead(run_model(m, fuel).0.grid),
{
    assert(grid_wf(m.grid)) by {
        assert forall|i: int| 0 <= i < m.grid.len() implies (#[trigger] m.grid[i]).len()
            == grid_width(m.grid) by {
            assert(m.grid[0].len() == m.width);
        }
    }
    crate::grid::lemma_dead_fixed_point(m.grid);
    let t = tick_model(m);
    assert(t.0.hist == m.hist.push((0nat, m.grid)));
    assert(t.0.hist[0] == (0nat, m.grid));
    assert(find_match(t.0.hist, step_grid(m.grid)) == Some(0nat));
    assert(run_model(m, fuel) == t);
}

} // verus!
