use vstd::arithmetic::div_mod::lemma_mod_add_multiples_vanish;
use vstd::arithmetic::div_mod::lemma_mod_bound;
use vstd::arithmetic::div_mod::lemma_mod_self_0;
use vstd::arithmetic::div_mod::lemma_small_mod;
use vstd::prelude::*;

verus! {

/// A rectangular field of boolean cells; `true` is a live cell. The field
/// lives on a torus: row and column arithmetic wraps around the edges.
pub struct Grid {
    pub data: Vec<Vec<bool>>,
}

impl View for Grid {
    type V = Seq<Seq<bool>>;

    open spec fn view(&self) -> Seq<Seq<bool>> {
        self.data@.map_values(|row: Vec<bool>| row@)
    }
}

pub open spec fn grid_width(g: Seq<Seq<bool>>) -> nat {
    if g.len() > 0 {
        g[0].len()
    } else {
        0
    }
}

/// Shape invariant of a grid: every row has the same length.
pub open spec fn grid_wf(g: Seq<Seq<bool>>) -> bool {
    forall|i: int| 0 <= i < g.len() ==> (#[trigger] g[i]).len() == grid_width(g)
}

/// Every cell is dead.
pub open spec fn all_dead(g: Seq<Seq<bool>>) -> bool {
    forall|i: int, j: int|
        0 <= i < g.len() && 0 <= j < g[i].len() ==> !(#[trigger] g[i][j])
}

/// The all-dead grid of the given dimensions.
pub open spec fn dead_grid(width: nat, height: nat) -> Seq<Seq<bool>> {
    Seq::new(height, |r: int| Seq::new(width, |c: int| false))
}

/// Where a signed offset from a position lands on an axis of modulus `m`,
/// under the non-negative (Euclidean) remainder convention: the result lies
/// in `[0, m)` whenever `m >= 1`.
pub open spec fn wrap_index(index: int, offset: int, m: int) -> int {
    (index + offset) % m
}

pub open spec fn b2i(b: bool) -> int {
    if b {
        1
    } else {
        0
    }
}

/// The cell of `g` reached from `(x, y)` by the offset `(dx, dy)`, wrapping
/// around both edges.
pub open spec fn neighbor_alive(g: Seq<Seq<bool>>, x: int, y: int, dx: int, dy: int) -> bool {
    g[wrap_index(x, dx, g.len() as int)][wrap_index(y, dy, grid_width(g) as int)]
}

/// How many of the eight toroidally-adjacent cells of `(x, y)` are alive.
pub open spec fn neighbor_count(g: Seq<Seq<bool>>, x: int, y: int) -> int {
    b2i(neighbor_alive(g, x, y, -1, -1)) + b2i(neighbor_alive(g, x, y, -1, 0)) + b2i(
        neighbor_alive(g, x, y, -1, 1),
    ) + b2i(neighbor_alive(g, x, y, 0, -1)) + b2i(neighbor_alive(g, x, y, 0, 1)) + b2i(
        neighbor_alive(g, x, y, 1, -1),
    ) + b2i(neighbor_alive(g, x, y, 1, 0)) + b2i(neighbor_alive(g, x, y, 1, 1))
}

/// The survival/birth rule: a live cell survives iff it has exactly 2 or 3
/// live neighbors; a dead cell becomes alive iff it has exactly 3.
pub open spec fn life_rule(alive: bool, neighbors: int) -> bool {
    if alive {
        neighbors == 2 || neighbors == 3
    } else {
        neighbors == 3
    }
}

/// One generation of the rule, applied to every cell of a read-only snapshot.
pub open spec fn step_grid(g: Seq<Seq<bool>>) -> Seq<Seq<bool>> {
    Seq::new(
        g.len(),
        |x: int| Seq::new(g[x].len(), |y: int| life_rule(g[x][y], neighbor_count(g, x, y))),
    )
}

/// Toroidal wraparound: one step back from position 0 lands on `m - 1`, one
/// step forward from `m - 1` lands back on 0, and an offset of 0 stays put.
pub proof fn lemma_toroidal_wraparound(m: int)
    requires
        m >= 1,
    ensures
        wrap_index(0, -1, m) == m - 1,
        wrap_index(m - 1, 1, m) == 0,
        forall|i: int| 0 <= i < m ==> #[trigger] wrap_index(i, 0, m) == i,
{
    lemma_mod_add_multiples_vanish(-1, m);
    lemma_small_mod((m - 1) as nat, m as nat);
    lemma_mod_self_0(m);
    assert forall|i: int| 0 <= i < m implies #[trigger] wrap_index(i, 0, m) == i by {
        lemma_small_mod(i as nat, m as nat);
    }
}

/// The all-dead grid is a fixed point of the rule: every neighbor count is
/// 0, so no cell is born and the grid repeats unchanged.
pub proof fn lemma_dead_fixed_point(g: Seq<Seq<bool>>)
    requires
        grid_wf(g),
        all_dead(g),
    ensures
        step_grid(g) == g,
{
    assert forall|x: int| 0 <= x < g.len() implies #[trigger] step_grid(g)[x] == g[x] by {
        assert forall|y: int| 0 <= y < g[x].len() implies #[trigger] step_grid(g)[x][y] == g[x][y] by {
            let h = g.len() as int;
            let w = grid_width(g) as int;
            assert(w == g[x].len());
            assert forall|dx: int, dy: int|
                -1 <= dx <= 1 && -1 <= dy <= 1 implies !#[trigger] neighbor_alive(
                g,
                x,
                y,
                dx,
                dy,
            ) by {
                lemma_mod_bound(x + dx, h);
                lemma_mod_bound(y + dy, w);
                assert(g[wrap_index(x, dx, h)].len() == w);
            }
            assert(neighbor_count(g, x, y) == 0);
        }
        assert(step_grid(g)[x] =~= g[x]);
    }
    assert(step_grid(g) =~~= g);
}

/// Relies on rand::random: one draw from the thread-local generator, an
/// unbiased coin. Nothing is promised of the outcome.
#[verifier::external_body]
fn random_bool() -> (b: bool) {
    rand::random()
}

impl Grid {
    /// An all-dead grid of the given dimensions.
    pub fn new(width: usize, height: usize) -> (g: Grid)
        ensures
            g@ == dead_grid(width as nat, height as nat),
            grid_wf(g@),
            g@.len() == height,
            forall|i: int| 0 <= i < height ==> (#[trigger] g@[i]).len() == width,
    {
        let mut data: Vec<Vec<bool>> = Vec::new();
        let mut r: usize = 0;
        while r < height
            invariant
                r <= height,
                data@.len() == r,
                forall|i: int|
                    0 <= i < r ==> (#[trigger] data@[i])@ == Seq::new(width as nat, |c: int| false),
            decreases height - r,
        {
            let mut row: Vec<bool> = Vec::new();
            let mut c: usize = 0;
            while c < width
                invariant
                    c <= width,
                    row@.len() == c,
                    forall|j: int| 0 <= j < c ==> !(#[trigger] row@[j]),
                decreases width - c,
            {
                row.push(false);
                c += 1;
            }
            proof {
                assert(row@ =~= Seq::new(width as nat, |c: int| false));
            }
            data.push(row);
            r += 1;
        }
        let g = Grid { data };
        proof {
            assert(g@ =~~= dead_grid(width as nat, height as nat));
        }
        g
    }

    /// Read one cell.
    pub fn get(&self, x: usize, y: usize) -> (b: bool)
        requires
            x < self@.len(),
            y < self@[x as int].len(),
        ensures
            b == self@[x as int][y as int],
    {
        self.data[x][y]
    }

    /// Write one cell; every other cell and the shape are untouched.
    pub fn set(&mut self, x: usize, y: usize, alive: bool)
        requires
            x < old(self)@.len(),
            y < old(self)@[x as int].len(),
        ensures
            final(self)@.len() == old(self)@.len(),
            forall|i: int|
                0 <= i < old(self)@.len() ==> (#[trigger] final(self)@[i]).len()
                    == old(self)@[i].len(),
            final(self)@[x as int][y as int] == alive,
            forall|i: int, j: int|
                0 <= i < old(self)@.len() && 0 <= j < old(self)@[i].len() && !(i == x && j == y)
                    ==> (#[trigger] final(self)@[i][j]) == old(self)@[i][j],
    {
        self.data[x][y] = alive;
    }

    /// Structural equality: same dimensions and the same cell at every position.
    pub fn equals(&self, other: &Grid) -> (r: bool)
        ensures
            r == (self@ == other@),
    {
        if self.data.len() != other.data.len() {
            proof {
                assert(self@.len() != other@.len());
            }
            return false;
        }
        let n = self.data.len();
        let mut i: usize = 0;
        while i < n
            invariant
                i <= n,
                n == self@.len(),
                n == other@.len(),
                forall|k: int| 0 <= k < i ==> (#[trigger] self@[k]) == other@[k],
            decreases n - i,
        {
            let a = &self.data[i];
            let b = &other.data[i];
            if a.len() != b.len() {
                proof {
                    assert(self@[i as int].len() != other@[i as int].len());
                }
                return false;
            }
            let m = a.len();
            let mut j: usize = 0;
            while j < m
                invariant
                    j <= m,
                    i < n,
                    n == self@.len(),
                    n == other@.len(),
                    a == &self.data[i as int],
                    b == &other.data[i as int],
                    m == self@[i as int].len(),
                    m == other@[i as int].len(),
                    forall|k: int|
                        0 <= k < j ==> (#[trigger] self@[i as int][k]) == other@[i as int][k],
                decreases m - j,
            {
                if a[j] != b[j] {
                    proof {
                        assert(self@[i as int][j as int] != other@[i as int][j as int]);
                    }
                    return false;
                }
                j += 1;
            }
            proof {
                assert(self@[i as int] =~= other@[i as int]);
            }
            i += 1;
        }
        proof {
            assert(self@ =~~= other@);
        }
        true
    }

    /// Carry a position along one axis by a signed neighbor offset, wrapping
    /// around the edge. The delicate spot of the system: the remainder must be
    /// taken under the non-negative (Euclidean) convention, so an offset of -1
    /// from position 0 resolves to `max - 1`, never to a negative index.
    pub fn compute_index(index: usize, offset: isize, max: usize) -> (r: Option<usize>)
        requires
            1 <= max,
            index < max,
            -1 <= offset <= 1,
        ensures
            r matches Some(k) && k == wrap_index(index as int, offset as int, max as int),
            r matches Some(k) && k < max,
    {
        proof {
            if index + offset < max {
                if index + offset >= 0 {
                    lemma_small_mod((index + offset) as nat, max as nat);
                } else {
                    lemma_mod_add_multiples_vanish(-1, max as int);
                    lemma_small_mod((max - 1) as nat, max as nat);
                }
            } else {
                lemma_mod_self_0(max as int);
            }
        }
        if offset < 0 {
            if index == 0 {
                Some(max - 1)
            } else {
                Some(index - 1)
            }
        } else if offset == 0 {
            Some(index)
        } else {
            if index == max - 1 {
                Some(0)
            } else {
                Some(index + 1)
            }
        }
    }

    /// The count of alive cells among the eight toroidally-adjacent positions.
    pub fn count_alive_neighbors(&self, x: usize, y: usize) -> (count: usize)
        requires
            grid_wf(self@),
            self@.len() >= 1,
            grid_width(self@) >= 1,
            x < self@.len(),
            y < grid_width(self@),
        ensures
            count == neighbor_count(self@, x as int, y as int),
            count <= 8,
    {
        let height = self.data.len();
        let width = self.data[0].len();
        let xm = Self::compute_index(x, -1, height).unwrap();
        let x0 = Self::compute_index(x, 0, height).unwrap();
        let xp = Self::compute_index(x, 1, height).unwrap();
        let ym = Self::compute_index(y, -1, width).unwrap();
        let y0 = Self::compute_index(y, 0, width).unwrap();
        let yp = Self::compute_index(y, 1, width).unwrap();
        proof {
            assert(self@[xm as int].len() == grid_width(self@));
            assert(self@[x0 as int].len() == grid_width(self@));
            assert(self@[xp as int].len() == grid_width(self@));
        }
        let mut count: usize = 0;
        if self.data[xm][ym] {
            count += 1;
        }
        if self.data[xm][y0] {
            count += 1;
        }
        if self.data[xm][yp] {
            count += 1;
        }
        if self.data[x0][ym] {
            count += 1;
        }
        if self.data[x0][yp] {
            count += 1;
        }
        if self.data[xp][ym] {
            count += 1;
        }
        if self.data[xp][y0] {
            count += 1;
        }
        if self.data[xp][yp] {
            count += 1;
        }
        count
    }

    /// Set every cell independently to alive or dead by a fair coin. The
    /// dimensions are untouched; nothing is promised of the contents.
    pub fn randomize(&mut self)
        ensures
            final(self)@.len() == old(self)@.len(),
            forall|i: int|
                0 <= i < old(self)@.len() ==> (#[trigger] final(self)@[i]).len()
                    == old(self)@[i].len(),
    {
        let n = self.data.len();
        let mut i: usize = 0;
        while i < n
            invariant
                i <= n,
                n == self@.len(),
                self@.len() == old(self)@.len(),
                forall|k: int|
                    0 <= k < self@.len() ==> (#[trigger] self@[k]).len() == old(self)@[k].len(),
            decreases n - i,
        {
            let ghost pre = self@;
            let m = self.data[i].len();
            let mut row: Vec<bool> = Vec::new();
            let mut j: usize = 0;
            while j < m
                invariant
                    j <= m,
                    row@.len() == j,
                decreases m - j,
            {
                row.push(random_bool());
                j += 1;
            }
            self.data[i] = row;
            proof {
                assert forall|k: int| 0 <= k < self@.len() implies (#[trigger] self@[k]).len()
                    == pre[k].len() by {
                    if k == i as int {
                        assert(self@[k] == row@);
                    } else {
                        assert(self@[k] == pre[k]);
                    }
                }
            }
            i += 1;
        }
    }

    /// True iff every cell is dead.
    pub fn is_empty(&self) -> (r: bool)
        ensures
            r == all_dead(self@),
    {
        let n = self.data.len();
        let mut i: usize = 0;
        while i < n
            invariant
                i <= n,
                n == self@.len(),
                forall|k: int, j: int|
                    0 <= k < i && 0 <= j < self@[k].len() ==> !(#[trigger] self@[k][j]),
            decreases n - i,
        {
            let row = &self.data[i];
            let m = row.len();
            let mut j: usize = 0;
            while j < m
                invariant
                    j <= m,
                    i < n,
                    n == self@.len(),
                    row == &self.data[i as int],
                    m == self@[i as int].len(),
                    forall|k: int| 0 <= k < j ==> !(#[trigger] self@[i as int][k]),
                decreases m - j,
            {
                if row[j] {
                    proof {
                        assert(self@[i as int][j as int]);
                    }
                    return false;
                }
                j += 1;
            }
            i += 1;
        }
        true
    }
}

impl Clone for Grid {
    /// A cell-for-cell copy of the grid.
    fn clone(&self) -> (r: Self)
        ensures
            r@ == self@,
    {
        let n = self.data.len();
        let mut data: Vec<Vec<bool>> = Vec::new();
        let mut i: usize = 0;
        while i < n
            invariant
                i <= n,
                n == self@.len(),
                data@.len() == i,
                forall|k: int| 0 <= k < i ==> (#[trigger] data@[k])@ == self@[k],
            decreases n - i,
        {
            let src = &self.data[i];
            let m = src.len();
            let mut row: Vec<bool> = Vec::new();
            let mut j: usize = 0;
            while j < m
                invariant
                    j <= m,
                    i < n,
                    n == self@.len(),
                    src == &self.data[i as int],
                    m == self@[i as int].len(),
                    row@.len() == j,
                    forall|k: int| 0 <= k < j ==> (#[trigger] row@[k]) == self@[i as int][k],
                decreases m - j,
            {
                row.push(src[j]);
                j += 1;
            }
            proof {
                assert(row@ =~= self@[i as int]);
            }
            data.push(row);
            i += 1;
        }
        let r = Grid { data };
        proof {
            assert(r@ =~~= self@);
        }
        r
    }
}

} // verus!
