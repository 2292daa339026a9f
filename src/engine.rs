use vstd::prelude::*;
use crate::grid::{Cell, CELLS, SIDE, cell_of_tag, tag_of, in_bounds, index_of};
use crate::fork::{WaveFork, NO_PARENT, fork_ok, count_open, open_neighbour, lemma_count_open_bounds};
use crate::model::{
    GenState, MAX_FORKS, branch_upto, process_fork, process_upto, sum_energy, forks_ok, gen_ok,
    lemma_branch_upto, lemma_process_upto, lemma_upto_stays, lemma_sum_take_le, lemma_sum_nonneg,
};

verus! {

/// Energy of the single fork that a birth creates.
pub const BIRTH_ENERGY: u8 = 100;

/// Total energy right after a birth.
pub const RESONANCE_ENERGY: u16 = 432;

/// Errors reported by the wave's operations.
#[derive(Clone, Copy, PartialEq, Eq, Structural, Debug)]
pub enum WaveError {
    /// A buffer is too short, a byte is no cell tag, or a birth position is off the
    /// grid or on a wall.
    InvalidInput,
    /// The wave was asked to step or to export its state before any birth.
    PreconditionViolation,
}

/// What one step reports.
#[derive(Clone, Copy, PartialEq, Eq, Structural, Debug)]
pub enum StepOutcome {
    /// Nothing was processed: the exit was already found, no fork is left, or the
    /// energy is spent. The state is unchanged.
    Collapsed,
    /// A fork stood on the exit; the generation ended there.
    ExitFound,
    /// The generation was processed and this many forks are now active (0 when all
    /// of them died).
    Continuing(u8),
}

/// The single status byte that stands for an outcome: 0, 255, or the fork count.
pub open spec fn status_of(o: StepOutcome) -> u8 {
    match o {
        StepOutcome::Collapsed => 0,
        StepOutcome::ExitFound => 255,
        StepOutcome::Continuing(n) => n,
    }
}

impl StepOutcome {
    /// The status byte of this outcome, where "collapsed" and "all forks died" both
    /// read 0.
    pub fn status_code(&self) -> (r: u8)
        ensures
            r == status_of(*self),
    {
        match self {
            StepOutcome::Collapsed => 0,
            StepOutcome::ExitFound => 255,
            StepOutcome::Continuing(n) => *n,
        }
    }
}

/// The whole simulation state, as the contracts see it.
pub struct WaveState {
    pub grid: Seq<Cell>,
    pub forks: Seq<WaveFork>,
    pub total_energy: int,
    pub found_exit: bool,
    pub generation: int,
    /// Whether a birth has happened.
    pub born: bool,
    /// Children that the last step could not create because the next generation was full.
    pub dropped: int,
}

impl WaveState {
    /// Energy held by the live forks and the shared budget, plus the generation, never
    /// exceeds what a birth starts with; this keeps every counter small.
    pub open spec fn wf(self) -> bool {
        &&& self.grid.len() == CELLS
        &&& forks_ok(self.forks)
        &&& 0 <= self.total_energy <= u16::MAX
        &&& 0 <= self.generation <= u16::MAX
        &&& 0 <= self.dropped <= u16::MAX
        &&& self.born && !self.found_exit ==> self.generation + self.total_energy + sum_energy(
            self.forks,
        ) <= RESONANCE_ENERGY + BIRTH_ENERGY
    }
}

/// The state of a generation before its first fork takes a turn.
pub open spec fn gen_start(s: WaveState) -> GenState {
    GenState { grid: s.grid, energy: s.total_energy, next: Seq::empty(), exit: false, dropped: 0 }
}

/// Whether a step does nothing at all.
pub open spec fn collapsed(s: WaveState) -> bool {
    s.found_exit || s.forks.len() == 0 || s.total_energy == 0
}

/// One step of a born wave: the state after it and what it reports. When a fork
/// reaches the exit, the children that earlier forks created become the generation.
pub open spec fn step_model(s: WaveState) -> (WaveState, StepOutcome) {
    if collapsed(s) {
        (s, StepOutcome::Collapsed)
    } else {
        let g = process_upto(gen_start(s), s.forks, s.forks.len() as int);
        if g.exit {
            (
                WaveState {
                    grid: g.grid,
                    forks: g.next,
                    total_energy: g.energy,
                    found_exit: true,
                    generation: s.generation + 1,
                    born: s.born,
                    dropped: g.dropped,
                },
                StepOutcome::ExitFound,
            )
        } else {
            (
                WaveState {
                    grid: g.grid,
                    forks: g.next,
                    total_energy: g.energy,
                    found_exit: false,
                    generation: s.generation + 1,
                    born: s.born,
                    dropped: g.dropped,
                },
                StepOutcome::Continuing(g.next.len() as u8),
            )
        }
    }
}

/// One call of `step`: before the first birth it fails and changes nothing; after
/// it, it does what `step_model` says.
pub open spec fn step_spec(s: WaveState) -> (WaveState, Result<StepOutcome, WaveError>) {
    if !s.born {
        (s, Err(WaveError::PreconditionViolation))
    } else {
        (step_model(s).0, Ok(step_model(s).1))
    }
}

/// The state after a birth at (x, y).
pub open spec fn birth_model(s: WaveState, x: u8, y: u8) -> WaveState {
    WaveState {
        grid: s.grid,
        forks: seq![WaveFork { x, y, energy: BIRTH_ENERGY, parent_id: NO_PARENT }],
        total_energy: RESONANCE_ENERGY as int,
        found_exit: false,
        generation: 0,
        born: true,
        dropped: 0,
    }
}

/// Whether a birth at (x, y) is accepted: on the grid and not on a wall.
pub open spec fn birth_ok(s: WaveState, x: u8, y: u8) -> bool {
    in_bounds(x as int, y as int) && s.grid[index_of(x as int, y as int)] != Cell::Wall
}

/// One fork's turn, on the live grid, budget, next generation and drop counter.
fn take_turn(
    grid: &mut Vec<Cell>,
    energy: &mut u16,
    next: &mut Vec<WaveFork>,
    dropped: &mut u16,
    f: WaveFork,
    i: u8,
) -> (exit: bool)
    requires
        gen_ok(GenState { grid: old(grid)@, energy: *old(energy) as int, next: old(next)@, exit: false, dropped: *old(dropped) as int }),
        fork_ok(f),
        i < MAX_FORKS,
        *old(energy) <= 1000,
        *old(dropped) <= 1000,
    ensures
        process_fork(
            GenState { grid: old(grid)@, energy: *old(energy) as int, next: old(next)@, exit: false, dropped: *old(dropped) as int },
            f,
            i as int,
        ) == (GenState { grid: final(grid)@, energy: *final(energy) as int, next: final(next)@, exit, dropped: *final(dropped) as int }),
{
    let ghost g = GenState { grid: grid@, energy: *energy as int, next: next@, exit: false, dropped: *dropped as int };
    let here: usize = f.y as usize * 8 + f.x as usize;
    let c = grid[here];
    if c == Cell::Exit {
        *energy = *energy + 2 * (f.energy as u16);
        return true;
    }
    if c == Cell::Wall {
        *energy = *energy + (f.energy / 2) as u16;
        return false;
    }
    let mut vd: u8 = 0;
    let mut d: u8 = 0;
    while d < 4
        invariant
            d <= 4,
            grid@ == g.grid,
            grid@.len() == CELLS,
            fork_ok(f),
            vd == count_open(g.grid, f, d as int),
        decreases 4 - d,
    {
        proof { lemma_count_open_bounds(g.grid, f, d as int); }
        if open_neighbour(grid, &f, d).is_some() {
            vd = vd + 1;
        }
        d = d + 1;
    }
    if vd == 0 || f.energy <= vd {
        return false;
    }
    let epf: u8 = f.energy / vd;
    assert(1 <= epf <= 255) by (nonlinear_arith)
        requires
            epf == f.energy / vd,
            f.energy > vd,
            vd > 0,
    ;
    let mut d: u8 = 0;
    while d < 4
        invariant
            d <= 4,
            1 <= epf <= 255,
            fork_ok(f),
            i < MAX_FORKS,
            *old(dropped) <= 1000,
            g == (GenState { grid: old(grid)@, energy: *old(energy) as int, next: old(next)@, exit: false, dropped: *old(dropped) as int }),
            gen_ok(g),
            branch_upto(g, f, i as int, epf as int, d as int) == (GenState {
                grid: grid@,
                energy: *energy as int,
                next: next@,
                exit: false,
                dropped: *dropped as int,
            }),
        decreases 4 - d,
    {
        proof { lemma_branch_upto(g, f, i as int, epf as int, d as int); }
        match open_neighbour(grid, &f, d) {
            Some((nx, ny)) => {
                if next.len() < MAX_FORKS {
                    let idx: usize = ny as usize * 8 + nx as usize;
                    if grid[idx] == Cell::Path {
                        grid.set(idx, Cell::Wave);
                    }
                    next.push(WaveFork { x: nx, y: ny, energy: epf, parent_id: i });
                    *energy = energy.saturating_sub(1);
                } else {
                    *dropped = *dropped + 1;
                }
            },
            None => {},
        }
        d = d + 1;
    }
    false
}

/// The simulation: the maze, the current generation of forks and the bookkeeping.
pub struct LivingWave {
    maze: Vec<Cell>,
    forks: Vec<WaveFork>,
    total_energy: u16,
    found_exit: bool,
    generation: u16,
    born: bool,
    dropped: u16,
}

impl View for LivingWave {
    type V = WaveState;

    closed spec fn view(&self) -> WaveState {
        WaveState {
            grid: self.maze@,
            forks: self.forks@,
            total_energy: self.total_energy as int,
            found_exit: self.found_exit,
            generation: self.generation as int,
            born: self.born,
            dropped: self.dropped as int,
        }
    }
}

impl LivingWave {
    /// A wave with an all-wall maze that has not been born yet.
    pub fn new() -> (r: LivingWave)
        ensures
            r@.wf(),
            r@.grid == Seq::new(CELLS as nat, |j: int| Cell::Wall),
            r@.forks.len() == 0,
            r@.total_energy == RESONANCE_ENERGY,
            !r@.found_exit,
            r@.generation == 0,
            !r@.born,
            r@.dropped == 0,
    {
        let mut maze: Vec<Cell> = Vec::new();
        let mut j: usize = 0;
        while j < CELLS
            invariant
                j <= CELLS,
                maze@ == Seq::new(j as nat, |k: int| Cell::Wall),
            decreases CELLS - j,
        {
            maze.push(Cell::Wall);
            j = j + 1;
            assert(maze@ =~= Seq::new(j as nat, |k: int| Cell::Wall));
        }
        LivingWave {
            maze,
            forks: Vec::new(),
            total_energy: RESONANCE_ENERGY,
            found_exit: false,
            generation: 0,
            born: false,
            dropped: 0,
        }
    }
}

/// Whether every one of the first `n` bytes is a cell tag.
pub open spec fn all_tags(data: Seq<u8>, n: int) -> bool {
    forall|j: int| 0 <= j < n ==> (#[trigger] cell_of_tag(data[j])).is_some()
}

/// The maze that the first `CELLS` bytes of `data` describe, row by row.
pub open spec fn maze_of(data: Seq<u8>) -> Seq<Cell> {
    Seq::new(CELLS as nat, |j: int| cell_of_tag(data[j]).unwrap())
}

/// Replaces the maze with the first 64 bytes of `data`, read as cell tags in row-major
/// order. Fails, changing nothing, when `data` is shorter or holds a byte that is no tag.
pub fn init_maze(wave: &mut LivingWave, data: &[u8]) -> (r: Result<(), WaveError>)
    requires
        old(wave)@.wf(),
    ensures
        final(wave)@.wf(),
        r.is_ok() == (data@.len() >= CELLS && all_tags(data@, CELLS as int)),
        r.is_ok() ==> final(wave)@ == (WaveState { grid: maze_of(data@), ..old(wave)@ }),
        r.is_err() ==> r == Err::<(), WaveError>(WaveError::InvalidInput) && final(wave)@ == old(wave)@,
{
    if data.len() < CELLS {
        return Err(WaveError::InvalidInput);
    }
    let mut cells: Vec<Cell> = Vec::new();
    let mut j: usize = 0;
    while j < CELLS
        invariant
            j <= CELLS <= data@.len(),
            all_tags(data@, j as int),
            wave@ == old(wave)@,
            old(wave)@.wf(),
            cells@ == Seq::new(j as nat, |k: int| cell_of_tag(data@[k]).unwrap()),
        decreases CELLS - j,
    {
        match Cell::from_tag(data[j]) {
            Some(c) => {
                cells.push(c);
            },
            None => {
                return Err(WaveError::InvalidInput);
            },
        }
        j = j + 1;
        assert(cells@ =~= Seq::new(j as nat, |k: int| cell_of_tag(data@[k]).unwrap()));
    }
    wave.maze = cells;
    assert(wave@.grid =~= maze_of(data@));
    Ok(())
}

/// Starts the wave afresh: one fork of energy 100 at (x, y), total energy 432, exit not
/// found, generation 0. Returns the total energy. Fails, changing nothing, when (x, y)
/// is off the grid or on a wall.
pub fn birth_wave(wave: &mut LivingWave, x: u8, y: u8) -> (r: Result<u16, WaveError>)
    requires
        old(wave)@.wf(),
    ensures
        final(wave)@.wf(),
        r.is_ok() == birth_ok(old(wave)@, x, y),
        r.is_ok() ==> r == Ok::<u16, WaveError>(RESONANCE_ENERGY) && final(wave)@ == birth_model(old(wave)@, x, y),
        r.is_err() ==> r == Err::<u16, WaveError>(WaveError::InvalidInput) && final(wave)@ == old(wave)@,
{
    if x >= SIDE || y >= SIDE {
        return Err(WaveError::InvalidInput);
    }
    let here: usize = y as usize * 8 + x as usize;
    if wave.maze[here] == Cell::Wall {
        return Err(WaveError::InvalidInput);
    }
    let mut forks: Vec<WaveFork> = Vec::new();
    forks.push(WaveFork { x, y, energy: BIRTH_ENERGY, parent_id: NO_PARENT });
    wave.forks = forks;
    wave.total_energy = RESONANCE_ENERGY;
    wave.found_exit = false;
    wave.generation = 0;
    wave.born = true;
    wave.dropped = 0;
    proof {
        let s = wave@.forks;
        assert(s.drop_last() =~= Seq::<WaveFork>::empty());
        assert(sum_energy(s.drop_last()) == 0);
        assert(sum_energy(s) == BIRTH_ENERGY);
    }
    assert(wave@.forks =~= birth_model(old(wave)@, x, y).forks);
    Ok(wave.total_energy)
}

/// Advances the wave by one generation: each fork in order takes its turn on the
/// maze, and the children they create become the new generation. Fails, changing
/// nothing, before the first birth.
pub fn step(wave: &mut LivingWave) -> (r: Result<StepOutcome, WaveError>)
    requires
        old(wave)@.wf(),
    ensures
        final(wave)@.wf(),
        (final(wave)@, r) == step_spec(old(wave)@),
{
    if !wave.born {
        return Err(WaveError::PreconditionViolation);
    }
    if wave.found_exit || wave.forks.len() == 0 || wave.total_energy == 0 {
        return Ok(StepOutcome::Collapsed);
    }
    let ghost s0 = wave@;
    let ghost g0 = gen_start(s0);
    proof {
        lemma_sum_nonneg(s0.forks);
    }
    wave.generation = wave.generation + 1;
    let mut energy: u16 = wave.total_energy;
    let mut next: Vec<WaveFork> = Vec::new();
    let mut dropped: u16 = 0;
    let n: usize = wave.forks.len();
    let mut i: usize = 0;
    while i < n
        invariant
            i <= n == s0.forks.len(),
            s0.wf(),
            s0.born && !collapsed(s0),
            g0 == gen_start(s0),
            old(wave)@ == s0,
            wave.forks@ == s0.forks,
            wave.generation == s0.generation + 1,
            wave.born,
            !wave.found_exit,
            process_upto(g0, s0.forks, i as int) == (GenState {
                grid: wave.maze@,
                energy: energy as int,
                next: next@,
                exit: false,
                dropped: dropped as int,
            }),
        decreases n - i,
    {
        proof {
            lemma_process_upto(g0, s0.forks, i as int);
            lemma_sum_take_le(s0.forks, i as int);
            lemma_sum_nonneg(next@);
            assert(s0.forks.take(0) =~= Seq::<WaveFork>::empty());
            assert(sum_energy(Seq::<WaveFork>::empty()) == 0);
        }
        let f = wave.forks[i];
        assert(fork_ok(f));
        let exit = take_turn(&mut wave.maze, &mut energy, &mut next, &mut dropped, f, i as u8);
        if exit {
            wave.forks = next;
            wave.total_energy = energy;
            wave.found_exit = true;
            wave.dropped = dropped;
            proof {
                lemma_process_upto(g0, s0.forks, i as int + 1);
                if i + 1 < n {
                    lemma_upto_stays(g0, s0.forks, i as int + 1, n as int);
                }
            }
            return Ok(StepOutcome::ExitFound);
        }
        i = i + 1;
    }
    proof {
        lemma_process_upto(g0, s0.forks, n as int);
        assert(s0.forks.take(n as int) =~= s0.forks);
        lemma_sum_nonneg(next@);
    }
    wave.forks = next;
    wave.total_energy = energy;
    wave.dropped = dropped;
    let count: u8 = wave.forks.len() as u8;
    Ok(StepOutcome::Continuing(count))
}

/// Bytes that a snapshot needs.
pub const SNAPSHOT_LEN: usize = 197;

/// Offset of the big-endian total energy in a snapshot.
pub const ENERGY_AT: usize = 193;

/// Offset of the big-endian generation in a snapshot.
pub const GENERATION_AT: usize = 195;

/// Byte `j` of a snapshot of `s` written over `prior`: the cell tags row by row, the
/// fork count, each fork's (x, y), then total energy and generation as big-endian
/// 16-bit numbers at fixed offsets. Every other byte keeps its prior value.
pub open spec fn snapshot_byte(prior: Seq<u8>, s: WaveState, j: int) -> u8 {
    let n = s.forks.len() as int;
    if j < CELLS {
        tag_of(s.grid[j])
    } else if j == CELLS {
        n as u8
    } else if j < CELLS + 1 + 2 * n {
        let k = (j - CELLS - 1) / 2;
        if (j - CELLS - 1) % 2 == 0 {
            s.forks[k].x
        } else {
            s.forks[k].y
        }
    } else if j == ENERGY_AT {
        (s.total_energy / 256) as u8
    } else if j == ENERGY_AT + 1 {
        (s.total_energy % 256) as u8
    } else if j == GENERATION_AT {
        (s.generation / 256) as u8
    } else if j == GENERATION_AT + 1 {
        (s.generation % 256) as u8
    } else {
        prior[j]
    }
}

/// A snapshot of `s` written over the buffer `prior`.
pub open spec fn snapshot(prior: Seq<u8>, s: WaveState) -> Seq<u8> {
    Seq::new(prior.len(), |j: int| snapshot_byte(prior, s, j))
}

/// Writes a snapshot of the wave into the first 197 bytes of `buffer`. Fails, changing
/// nothing, before the first birth or when the buffer is shorter.
pub fn get_wave_state(wave: &LivingWave, buffer: &mut Vec<u8>) -> (r: Result<(), WaveError>)
    requires
        wave@.wf(),
    ensures
        !wave@.born ==> r == Err::<(), WaveError>(WaveError::PreconditionViolation)
            && final(buffer)@ == old(buffer)@,
        wave@.born && old(buffer)@.len() < SNAPSHOT_LEN ==> r == Err::<(), WaveError>(
            WaveError::InvalidInput,
        ) && final(buffer)@ == old(buffer)@,
        wave@.born && old(buffer)@.len() >= SNAPSHOT_LEN ==> r == Ok::<(), WaveError>(())
            && final(buffer)@ == snapshot(old(buffer)@, wave@),
{
    if !wave.born {
        return Err(WaveError::PreconditionViolation);
    }
    if buffer.len() < SNAPSHOT_LEN {
        return Err(WaveError::InvalidInput);
    }
    let ghost prior = buffer@;
    let ghost s = wave@;
    let mut j: usize = 0;
    while j < CELLS
        invariant
            j <= CELLS,
            buffer@.len() == prior.len() >= SNAPSHOT_LEN,
            s == wave@,
            s.wf(),
            forall|t: int| 0 <= t < j ==> buffer@[t] == snapshot_byte(prior, s, t),
            forall|t: int| j <= t < prior.len() ==> buffer@[t] == prior[t],
        decreases CELLS - j,
    {
        let t = wave.maze[j].tag();
        buffer.set(j, t);
        j = j + 1;
    }
    let n: usize = wave.forks.len();
    buffer.set(CELLS, n as u8);
    let mut k: usize = 0;
    while k < n
        invariant
            k <= n == s.forks.len() <= MAX_FORKS,
            buffer@.len() == prior.len() >= SNAPSHOT_LEN,
            s == wave@,
            forall|t: int| 0 <= t < CELLS + 1 + 2 * k ==> buffer@[t] == snapshot_byte(prior, s, t),
            forall|t: int| CELLS + 1 + 2 * k <= t < prior.len() ==> buffer@[t] == prior[t],
        decreases n - k,
    {
        let f = wave.forks[k];
        buffer.set(CELLS + 1 + 2 * k, f.x);
        buffer.set(CELLS + 2 + 2 * k, f.y);
        k = k + 1;
    }
    buffer.set(ENERGY_AT, (wave.total_energy / 256) as u8);
    buffer.set(ENERGY_AT + 1, (wave.total_energy % 256) as u8);
    buffer.set(GENERATION_AT, (wave.generation / 256) as u8);
    buffer.set(GENERATION_AT + 1, (wave.generation % 256) as u8);
    assert(buffer@ =~= snapshot(prior, s));
    Ok(())
}

/// The total energy.
pub fn get_energy(wave: &LivingWave) -> (r: u16)
    ensures
        r == wave@.total_energy,
{
    wave.total_energy
}

/// Whether the exit has been found since the last birth.
pub fn is_complete(wave: &LivingWave) -> (r: bool)
    ensures
        r == wave@.found_exit,
{
    wave.found_exit
}

impl LivingWave {
    /// How many forks are active.
    pub fn fork_count(&self) -> (r: usize)
        ensures
            r == self@.forks.len(),
    {
        self.forks.len()
    }

    /// Active fork number `i`, in discovery order.
    pub fn fork(&self, i: usize) -> (r: Option<WaveFork>)
        ensures
            r == (if i < self@.forks.len() {
                Some(self@.forks[i as int])
            } else {
                None
            }),
    {
        if i < self.forks.len() {
            Some(self.forks[i])
        } else {
            None
        }
    }

    /// How many generations have been processed since the last birth.
    pub fn generation(&self) -> (r: u16)
        ensures
            r == self@.generation,
    {
        self.generation
    }

    /// The cell at (x, y), if that lies on the grid.
    pub fn cell(&self, x: u8, y: u8) -> (r: Option<Cell>)
        requires
            self@.wf(),
        ensures
            r == (if in_bounds(x as int, y as int) {
                Some(self@.grid[index_of(x as int, y as int)])
            } else {
                None
            }),
    {
        if x < SIDE && y < SIDE {
            Some(self.maze[y as usize * 8 + x as usize])
        } else {
            None
        }
    }

    /// Children that the last step could not create because 64 forks were already
    /// queued for the next generation.
    pub fn capacity_dropped(&self) -> (r: u16)
        ensures
            r == self@.dropped,
    {
        self.dropped
    }
}

} // verus!
