use vstd::prelude::*;
use crate::grid::{Cell, CELLS, index_of, in_bounds, grid_grows};
use crate::fork::WaveFork;
use crate::model::{MAX_FORKS, process_fork, process_upto, sum_energy, lemma_process_upto, lemma_sum_nonneg, lemma_sum_take_le};
use crate::engine::{
    WaveState, StepOutcome, WaveError, BIRTH_ENERGY, RESONANCE_ENERGY, SNAPSHOT_LEN, ENERGY_AT, GENERATION_AT,
    birth_model, birth_ok, collapsed, gen_start, snapshot, status_of, step_model, step_spec,
};

verus! {

/// A step from a well-formed state leads to a well-formed state whose maze only
/// gained Wave cells.
pub proof fn lemma_step_spec(s: WaveState)
    requires
        s.wf(),
    ensures
        step_spec(s).0.wf(),
        step_spec(s).0.born == s.born,
        grid_grows(s.grid, step_spec(s).0.grid),
{
    if !s.born || collapsed(s) {
        assert(grid_grows(s.grid, s.grid));
    } else {
        let n = s.forks.len() as int;
        lemma_process_upto(gen_start(s), s.forks, n);
        assert(s.forks.take(n) =~= s.forks);
        lemma_sum_nonneg(s.forks);
        lemma_sum_nonneg(process_upto(gen_start(s), s.forks, n).next);
        assert(sum_energy(Seq::<WaveFork>::empty()) == 0);
        let g = process_upto(gen_start(s), s.forks, n);
        if g.exit {
            let j = choose|j: int|
                0 <= j < n && g.energy == process_upto(gen_start(s), s.forks, j).energy + 2
                    * s.forks[j].energy && !process_upto(gen_start(s), s.forks, j).exit;
            lemma_process_upto(gen_start(s), s.forks, j);
            lemma_sum_take_le(s.forks, j);
            lemma_sum_nonneg(process_upto(gen_start(s), s.forks, j).next);
        }
    }
}

/// A wave born on the exit finds it in its first step: the step reports the exit,
/// the wave is complete with no fork left, and the total energy gains twice the
/// birth energy.
pub proof fn law_birth_on_exit(s: WaveState, x: u8, y: u8)
    requires
        s.wf(),
        in_bounds(x as int, y as int),
        s.grid[index_of(x as int, y as int)] == Cell::Exit,
    ensures
        birth_ok(s, x, y),
        step_model(birth_model(s, x, y)).1 == StepOutcome::ExitFound,
        status_of(step_model(birth_model(s, x, y)).1) == 255,
        step_model(birth_model(s, x, y)).0.found_exit,
        step_model(birth_model(s, x, y)).0.forks.len() == 0,
        step_model(birth_model(s, x, y)).0.total_energy == RESONANCE_ENERGY + 2 * BIRTH_ENERGY,
{
    let b = birth_model(s, x, y);
    let g0 = gen_start(b);
    assert(process_upto(g0, b.forks, 0) == g0);
    assert(process_upto(g0, b.forks, 1) == process_fork(g0, b.forks[0], 0));
}

/// A birth on a wall is refused. A born fork that stands on a wall (the maze was
/// replaced after the birth) dies in the first step: no fork is left, the status
/// byte reads 0, and the total energy gains half the birth energy.
pub proof fn law_birth_on_wall(s: WaveState, x: u8, y: u8)
    requires
        s.wf(),
        in_bounds(x as int, y as int),
        s.grid[index_of(x as int, y as int)] == Cell::Wall,
    ensures
        !birth_ok(s, x, y),
        step_model(birth_model(s, x, y)).1 == StepOutcome::Continuing(0),
        status_of(step_model(birth_model(s, x, y)).1) == 0,
        step_model(birth_model(s, x, y)).0.forks.len() == 0,
        !step_model(birth_model(s, x, y)).0.found_exit,
        step_model(birth_model(s, x, y)).0.total_energy == RESONANCE_ENERGY + BIRTH_ENERGY / 2,
{
    let b = birth_model(s, x, y);
    let g0 = gen_start(b);
    assert(process_upto(g0, b.forks, 0) == g0);
    assert(process_upto(g0, b.forks, 1) == process_fork(g0, b.forks[0], 0));
}

/// The total energy is never negative after a step: each branch cost stops at zero.
pub proof fn law_energy_nonnegative(s: WaveState)
    requires
        s.wf(),
    ensures
        step_spec(s).0.total_energy >= 0,
{
    lemma_step_spec(s);
}

/// A step never leaves more than 64 forks, and never reports a larger count.
pub proof fn law_fork_cap(s: WaveState)
    requires
        s.wf(),
    ensures
        step_spec(s).0.forks.len() <= MAX_FORKS,
        step_spec(s).1 is Ok ==> status_of(step_spec(s).1->Ok_0) == 255 || status_of(
            step_spec(s).1->Ok_0,
        ) <= MAX_FORKS,
{
    lemma_step_spec(s);
}

/// A step only turns Path cells into Wave cells: a visited cell stays visited, and no
/// cell becomes Path.
pub proof fn law_visited_stays_visited(s: WaveState)
    requires
        s.wf(),
    ensures
        forall|j: int|
            0 <= j < CELLS && s.grid[j] == Cell::Wave ==> #[trigger] step_spec(s).0.grid[j]
                == Cell::Wave,
        forall|j: int|
            0 <= j < CELLS && #[trigger] step_spec(s).0.grid[j] == Cell::Path ==> s.grid[j]
                == Cell::Path,
{
    lemma_step_spec(s);
    let t = step_spec(s).0;
    assert forall|j: int| 0 <= j < CELLS implies (s.grid[j] == Cell::Wave ==> #[trigger] t.grid[j]
        == Cell::Wave) && (t.grid[j] == Cell::Path ==> s.grid[j] == Cell::Path) by {
        assert(t.grid[j] == s.grid[j] || (s.grid[j] == Cell::Path && t.grid[j] == Cell::Wave));
    }
}

/// Whether a step's report means that the wave cannot go on: a collapse, a generation
/// in which every fork died, the exit, or a wave not yet born.
pub open spec fn ends_run(r: Result<StepOutcome, WaveError>) -> bool {
    r == Ok::<StepOutcome, WaveError>(StepOutcome::Collapsed)
        || r == Ok::<StepOutcome, WaveError>(StepOutcome::Continuing(0))
        || r == Ok::<StepOutcome, WaveError>(StepOutcome::ExitFound)
        || r == Err::<StepOutcome, WaveError>(WaveError::PreconditionViolation)
}

/// Once a step reports that the wave cannot go on, every later step changes nothing,
/// so the generation stops advancing: it reports a collapse, or, before any birth, the
/// missing birth. A collapse leaves the state as it was, while a generation in which
/// all forks died still counts, so the two stay apart.
pub proof fn law_collapse_is_final(s: WaveState)
    requires
        s.wf(),
        ends_run(step_spec(s).1),
    ensures
        step_spec(step_spec(s).0).0 == step_spec(s).0,
        step_spec(s).0.born ==> step_spec(step_spec(s).0).1 == Ok::<StepOutcome, WaveError>(
            StepOutcome::Collapsed,
        ),
        !step_spec(s).0.born ==> step_spec(step_spec(s).0).1 == Err::<StepOutcome, WaveError>(
            WaveError::PreconditionViolation,
        ),
        step_spec(s).1 == Ok::<StepOutcome, WaveError>(StepOutcome::Collapsed) ==> step_spec(s).0
            == s,
        step_spec(s).1 == Err::<StepOutcome, WaveError>(WaveError::PreconditionViolation)
            ==> step_spec(s).0 == s,
        step_spec(s).1 == Ok::<StepOutcome, WaveError>(StepOutcome::Continuing(0))
            ==> step_spec(s).0.generation == s.generation + 1,
{
    lemma_step_spec(s);
}

/// The last four bytes of a snapshot read back, big-endian, as the total energy and
/// the generation.
pub proof fn law_snapshot_round_trip(s: WaveState, prior: Seq<u8>)
    requires
        s.wf(),
        prior.len() >= SNAPSHOT_LEN,
    ensures
        snapshot(prior, s)[ENERGY_AT as int] * 256 + snapshot(prior, s)[ENERGY_AT + 1]
            == s.total_energy,
        snapshot(prior, s)[GENERATION_AT as int] * 256 + snapshot(prior, s)[GENERATION_AT + 1]
            == s.generation,
{
}

} // verus!
