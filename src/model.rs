use vstd::prelude::*;
use vstd::arithmetic::div_mod::{lemma_fundamental_div_mod, lemma_mod_pos_bound};
use vstd::arithmetic::mul::{lemma_mul_inequality, lemma_mul_is_distributive_add_other_way};
use crate::grid::{Cell, CELLS, index_of, grid_grows, lemma_grows_keeps_open, lemma_grows_trans};
use crate::fork::{WaveFork, fork_ok, dx, dy, open_dir, count_open, lemma_count_open_bounds};

verus! {

/// Most forks that one generation may hold.
pub const MAX_FORKS: usize = 64;

/// What one generation has built so far while its forks are processed in order.
pub struct GenState {
    pub grid: Seq<Cell>,
    pub energy: int,
    pub next: Seq<WaveFork>,
    pub exit: bool,
    /// Children that were not created because the next generation was full.
    pub dropped: int,
}

/// Subtraction of one unit that stops at zero.
pub open spec fn sat_dec(e: int) -> int {
    if e > 0 {
        e - 1
    } else {
        0
    }
}

/// The energy held by a sequence of forks.
pub open spec fn sum_energy(s: Seq<WaveFork>) -> int
    decreases s.len(),
{
    if s.len() == 0 {
        0
    } else {
        sum_energy(s.drop_last()) + s.last().energy
    }
}

/// Every fork stands on the grid with energy, and there are at most `MAX_FORKS`.
pub open spec fn forks_ok(s: Seq<WaveFork>) -> bool {
    &&& s.len() <= MAX_FORKS
    &&& forall|j: int| 0 <= j < s.len() ==> fork_ok(#[trigger] s[j])
}

/// Fork `f` (number `i` of its generation) tries to send a child of energy `epf`
/// in direction `d`.
pub open spec fn branch(g: GenState, f: WaveFork, i: int, d: int, epf: int) -> GenState {
    if !open_dir(g.grid, f, d) {
        g
    } else if g.next.len() >= MAX_FORKS {
        GenState { grid: g.grid, energy: g.energy, next: g.next, exit: g.exit, dropped: g.dropped + 1 }
    } else {
        let nx = f.x + dx(d);
        let ny = f.y + dy(d);
        let idx = index_of(nx, ny);
        let child = WaveFork { x: nx as u8, y: ny as u8, energy: epf as u8, parent_id: i as u8 };
        GenState {
            grid: if g.grid[idx] == Cell::Path {
                g.grid.update(idx, Cell::Wave)
            } else {
                g.grid
            },
            energy: sat_dec(g.energy),
            next: g.next.push(child),
            exit: g.exit,
            dropped: g.dropped,
        }
    }
}

/// The first `n` directions of `f`, taken in order.
pub open spec fn branch_upto(g: GenState, f: WaveFork, i: int, epf: int, n: int) -> GenState
    decreases n,
{
    if n <= 0 {
        g
    } else {
        branch(branch_upto(g, f, i, epf, n - 1), f, i, n - 1, epf)
    }
}

/// Fork `f`, number `i` of its generation, takes its turn.
pub open spec fn process_fork(g: GenState, f: WaveFork, i: int) -> GenState {
    let c = g.grid[index_of(f.x as int, f.y as int)];
    if c == Cell::Exit {
        GenState {
            grid: g.grid,
            energy: g.energy + 2 * f.energy,
            next: g.next,
            exit: true,
            dropped: g.dropped,
        }
    } else if c == Cell::Wall {
        GenState {
            grid: g.grid,
            energy: g.energy + f.energy as int / 2,
            next: g.next,
            exit: g.exit,
            dropped: g.dropped,
        }
    } else {
        let vd = count_open(g.grid, f, 4);
        if vd > 0 && f.energy > vd {
            branch_upto(g, f, i, f.energy as int / vd, 4)
        } else {
            g
        }
    }
}

/// The first `k` forks take their turns in order; the first that reaches the exit
/// ends the generation.
pub open spec fn process_upto(g0: GenState, forks: Seq<WaveFork>, k: int) -> GenState
    decreases k,
{
    if k <= 0 {
        g0
    } else {
        let g = process_upto(g0, forks, k - 1);
        if g.exit {
            g
        } else {
            process_fork(g, forks[k - 1], k - 1)
        }
    }
}

/// The shape every state of a generation keeps.
pub open spec fn gen_ok(g: GenState) -> bool {
    &&& g.grid.len() == CELLS
    &&& forks_ok(g.next)
    &&& g.energy >= 0
    &&& g.dropped >= 0
}

pub proof fn lemma_sum_push(s: Seq<WaveFork>, f: WaveFork)
    ensures
        sum_energy(s.push(f)) == sum_energy(s) + f.energy,
{
    assert(s.push(f).drop_last() =~= s);
}

pub proof fn lemma_sum_take(s: Seq<WaveFork>, k: int)
    requires
        0 <= k < s.len(),
    ensures
        sum_energy(s.take(k + 1)) == sum_energy(s.take(k)) + s[k].energy,
{
    assert(s.take(k + 1).drop_last() =~= s.take(k));
}

pub proof fn lemma_sum_nonneg(s: Seq<WaveFork>)
    ensures
        sum_energy(s) >= 0,
    decreases s.len(),
{
    if s.len() > 0 {
        lemma_sum_nonneg(s.drop_last());
    }
}

pub proof fn lemma_sum_take_le(s: Seq<WaveFork>, k: int)
    requires
        0 <= k <= s.len(),
    ensures
        0 <= sum_energy(s.take(k)) <= sum_energy(s),
    decreases s.len() - k,
{
    if k == s.len() {
        assert(s.take(k) =~= s);
        lemma_sum_nonneg(s);
    } else {
        lemma_sum_take(s, k);
        lemma_sum_take_le(s, k + 1);
        if k == 0 {
            assert(s.take(0) =~= Seq::<WaveFork>::empty());
        } else {
            lemma_sum_nonneg(s.take(k));
        }
    }
}

/// What branching in the first `n` directions does to a generation's state.
pub proof fn lemma_branch_upto(g: GenState, f: WaveFork, i: int, epf: int, n: int)
    requires
        gen_ok(g),
        fork_ok(f),
        0 <= i < MAX_FORKS,
        1 <= epf <= 255,
        0 <= n <= 4,
    ensures
        ({
            let h = branch_upto(g, f, i, epf, n);
            let c = h.next.len() - g.next.len();
            &&& gen_ok(h)
            &&& grid_grows(g.grid, h.grid)
            &&& 0 <= c <= count_open(g.grid, f, n)
            &&& sum_energy(h.next) == sum_energy(g.next) + c * epf
            &&& h.energy <= g.energy
            &&& (g.energy > 0 && c > 0 ==> h.energy < g.energy)
            &&& h.exit == g.exit
            &&& g.dropped <= h.dropped <= g.dropped + n
        }),
    decreases n,
{
    if n == 0 {
        assert(g.next.len() - g.next.len() == 0);
        assert(0 * epf == 0);
    } else {
        lemma_branch_upto(g, f, i, epf, n - 1);
        let p = branch_upto(g, f, i, epf, n - 1);
        let h = branch(p, f, i, n - 1, epf);
        let cp = p.next.len() - g.next.len();
        lemma_grows_keeps_open(g.grid, p.grid, f.x + dx(n - 1), f.y + dy(n - 1));
        lemma_mul_is_distributive_add_other_way(epf, cp, 1);
        if open_dir(p.grid, f, n - 1) && p.next.len() < MAX_FORKS {
            let nx = f.x + dx(n - 1);
            let ny = f.y + dy(n - 1);
            let idx = index_of(nx, ny);
            let child = WaveFork { x: nx as u8, y: ny as u8, energy: epf as u8, parent_id: i as u8 };
            lemma_sum_push(p.next, child);
            assert(h.next[h.next.len() - 1] == child);
            assert(grid_grows(p.grid, h.grid));
            lemma_grows_trans(g.grid, p.grid, h.grid);
            assert forall|j: int| 0 <= j < h.next.len() implies fork_ok(#[trigger] h.next[j]) by {
                if j < p.next.len() {
                    assert(h.next[j] == p.next[j]);
                }
            }
        }
    }
}

/// What one fork's turn does to a generation's state.
pub proof fn lemma_process_fork(g: GenState, f: WaveFork, i: int)
    requires
        gen_ok(g),
        !g.exit,
        fork_ok(f),
        0 <= i < MAX_FORKS,
    ensures
        ({
            let h = process_fork(g, f, i);
            &&& gen_ok(h)
            &&& grid_grows(g.grid, h.grid)
            &&& g.dropped <= h.dropped <= g.dropped + 4
            &&& h.exit ==> h.energy == g.energy + 2 * f.energy && h.next == g.next
            &&& !h.exit ==> h.energy + sum_energy(h.next) + (if g.energy > 0 { 1int } else { 0int })
                <= g.energy + sum_energy(g.next) + f.energy
        }),
{
    let c = g.grid[index_of(f.x as int, f.y as int)];
    assert(grid_grows(g.grid, g.grid));
    lemma_sum_nonneg(g.next);
    if c != Cell::Exit && c != Cell::Wall {
        let vd = count_open(g.grid, f, 4);
        let e = f.energy as int;
        if vd > 0 && e > vd {
            let epf = e / vd;
            lemma_fundamental_div_mod(e, vd);
            lemma_mod_pos_bound(e, vd);
            lemma_count_open_bounds(g.grid, f, 4);
            if epf <= 0 {
                lemma_mul_inequality(epf, 0, vd);
                assert(false);
            }
            lemma_mul_inequality(1, vd, epf);
            lemma_branch_upto(g, f, i, epf, 4);
            let h = branch_upto(g, f, i, epf, 4);
            let cc = h.next.len() - g.next.len();
            lemma_mul_inequality(cc, vd, epf);
            assert(cc * epf <= e);
            if cc == 0 {
                assert(cc * epf == 0);
            }
            assert(h.energy + sum_energy(h.next) + (if g.energy > 0 { 1int } else { 0int })
                <= g.energy + sum_energy(g.next) + e);
        }
    }
}

/// What the first `k` turns of a generation do, from a state with no children yet.
pub proof fn lemma_process_upto(g0: GenState, forks: Seq<WaveFork>, k: int)
    requires
        gen_ok(g0),
        !g0.exit,
        forks_ok(forks),
        0 <= k <= forks.len(),
    ensures
        ({
            let h = process_upto(g0, forks, k);
            let rest = sum_energy(forks) - sum_energy(forks.take(k));
            &&& gen_ok(h)
            &&& grid_grows(g0.grid, h.grid)
            &&& g0.dropped <= h.dropped <= g0.dropped + 4 * k
            &&& !h.exit ==> h.energy + sum_energy(h.next) + rest + (if k > 0 && g0.energy > 0 {
                1int
            } else {
                0int
            }) <= g0.energy + sum_energy(g0.next) + sum_energy(forks)
            &&& h.exit ==> exists|j: int|
                0 <= j < k && h.energy == process_upto(g0, forks, j).energy + 2 * forks[j].energy
                    && !process_upto(g0, forks, j).exit
        }),
    decreases k,
{
    if k == 0 {
        assert(forks.take(0) =~= Seq::<WaveFork>::empty());
        assert(grid_grows(g0.grid, g0.grid));
    } else {
        lemma_process_upto(g0, forks, k - 1);
        let p = process_upto(g0, forks, k - 1);
        lemma_sum_take(forks, k - 1);
        if !p.exit {
            assert(fork_ok(forks[k - 1]));
            lemma_process_fork(p, forks[k - 1], k - 1);
            lemma_grows_trans(g0.grid, p.grid, process_fork(p, forks[k - 1], k - 1).grid);
            if k - 1 == 0 {
                assert(p == g0);
            }
        } else {
            let j = choose|j: int|
                0 <= j < k - 1 && p.energy == process_upto(g0, forks, j).energy + 2
                    * forks[j].energy && !process_upto(g0, forks, j).exit;
        }
    }
}

/// Once a turn has found the exit, later turns change nothing.
pub proof fn lemma_upto_stays(g0: GenState, forks: Seq<WaveFork>, k: int, m: int)
    requires
        0 <= k <= m,
        process_upto(g0, forks, k).exit,
    ensures
        process_upto(g0, forks, m) == process_upto(g0, forks, k),
    decreases m - k,
{
    if m > k {
        lemma_upto_stays(g0, forks, k, m - 1);
    }
}

} // verus!
