use living_wave::{
    Cell, LivingWave, StepOutcome, WaveError, WaveFork, birth_wave, get_energy, get_wave_state,
    init_maze, is_complete, step,
};

const WALL: u8 = 0;
const PATH: u8 = 1;
const EXIT: u8 = 2;
const START: u8 = 3;
const WAVE: u8 = 4;

fn open_maze() -> Vec<u8> {
    let mut m = vec![PATH; 64];
    m[0] = START;
    m[63] = EXIT;
    m
}

fn loaded(m: &[u8]) -> LivingWave {
    let mut w = LivingWave::new();
    assert_eq!(init_maze(&mut w, m), Ok(()));
    w
}

fn snapshot_of(w: &LivingWave) -> Vec<u8> {
    let mut buf = vec![0xAA; 200];
    assert_eq!(get_wave_state(w, &mut buf), Ok(()));
    buf
}

#[test]
fn open_maze_first_step_branches_twice() {
    let mut w = loaded(&open_maze());
    assert_eq!(birth_wave(&mut w, 0, 0), Ok(432));
    let r = step(&mut w);
    assert_eq!(r, Ok(StepOutcome::Continuing(2)));
    assert_eq!(r.unwrap().status_code(), 2);
    assert_eq!(get_energy(&w), 430);
    assert_eq!(w.fork_count(), 2);
    assert_eq!(w.generation(), 1);
    assert_eq!(w.fork(0), Some(WaveFork { x: 0, y: 1, energy: 50, parent_id: 0 }));
    assert_eq!(w.fork(1), Some(WaveFork { x: 1, y: 0, energy: 50, parent_id: 0 }));
    assert_eq!(w.fork(2), None);
    assert_eq!(w.cell(0, 1), Some(Cell::Wave));
    assert_eq!(w.cell(1, 0), Some(Cell::Wave));
    assert_eq!(w.cell(0, 0), Some(Cell::Start));
    assert_eq!(w.cell(8, 0), None);
    assert!(!is_complete(&w));
}

#[test]
fn boxed_in_start_dies_without_reclaim() {
    let mut m = open_maze();
    m[1] = WALL;
    m[8] = WALL;
    let mut w = loaded(&m);
    assert_eq!(birth_wave(&mut w, 0, 0), Ok(432));
    let r = step(&mut w).unwrap();
    assert_eq!(r, StepOutcome::Continuing(0));
    assert_eq!(r.status_code(), 0);
    assert_eq!(w.fork_count(), 0);
    // A fork with no open direction is dropped and its energy is not reclaimed.
    assert_eq!(get_energy(&w), 432);
}

#[test]
fn birth_on_exit_finds_it_at_once() {
    let mut m = open_maze();
    m[3 * 8 + 2] = EXIT;
    let mut w = loaded(&m);
    assert_eq!(birth_wave(&mut w, 2, 3), Ok(432));
    let r = step(&mut w).unwrap();
    assert_eq!(r, StepOutcome::ExitFound);
    assert_eq!(r.status_code(), 255);
    assert!(is_complete(&w));
    assert_eq!(get_energy(&w), 632);
    assert_eq!(w.generation(), 1);
    assert_eq!(w.fork_count(), 0);
}

#[test]
fn birth_on_wall_is_refused() {
    let mut m = open_maze();
    m[9] = WALL;
    let mut w = loaded(&m);
    assert_eq!(birth_wave(&mut w, 1, 1), Err(WaveError::InvalidInput));
    assert_eq!(birth_wave(&mut w, 8, 0), Err(WaveError::InvalidInput));
    assert_eq!(birth_wave(&mut w, 0, 8), Err(WaveError::InvalidInput));
    assert_eq!(step(&mut w), Err(WaveError::PreconditionViolation));
}

#[test]
fn fork_left_on_a_wall_reclaims_half() {
    let mut w = loaded(&open_maze());
    assert_eq!(birth_wave(&mut w, 4, 4), Ok(432));
    let mut m = open_maze();
    m[4 * 8 + 4] = WALL;
    assert_eq!(init_maze(&mut w, &m), Ok(()));
    let r = step(&mut w).unwrap();
    assert_eq!(r, StepOutcome::Continuing(0));
    assert_eq!(r.status_code(), 0);
    assert_eq!(w.fork_count(), 0);
    assert_eq!(get_energy(&w), 482);
}

#[test]
fn exit_stops_the_generation_at_the_first_fork() {
    let mut m = open_maze();
    m[8] = EXIT;
    let mut w = loaded(&m);
    birth_wave(&mut w, 0, 0).unwrap();
    assert_eq!(step(&mut w), Ok(StepOutcome::Continuing(2)));
    assert_eq!(get_energy(&w), 430);
    assert_eq!(step(&mut w), Ok(StepOutcome::ExitFound));
    // The fork on the exit came first: its sibling at (1, 0) never branched.
    assert_eq!(get_energy(&w), 530);
    assert_eq!(w.cell(1, 1), Some(Cell::Path));
    assert_eq!(w.cell(2, 0), Some(Cell::Path));
    // No fork before the exit created a child, so no fork is left.
    assert_eq!(w.fork_count(), 0);
    assert_eq!(w.generation(), 2);
}

#[test]
fn exit_after_a_sibling_branched() {
    let mut m = open_maze();
    m[1] = EXIT;
    let mut w = loaded(&m);
    birth_wave(&mut w, 0, 0).unwrap();
    assert_eq!(step(&mut w), Ok(StepOutcome::Continuing(2)));
    assert_eq!(w.cell(1, 0), Some(Cell::Exit));
    assert_eq!(step(&mut w), Ok(StepOutcome::ExitFound));
    // The fork at (0, 1) sent 3 children of 16 first, paying 3; the exit adds 2 * 50.
    assert_eq!(get_energy(&w), 527);
    assert_eq!(w.cell(0, 2), Some(Cell::Wave));
    assert_eq!(w.cell(1, 1), Some(Cell::Wave));
    assert_eq!(w.cell(0, 0), Some(Cell::Start));
    assert!(is_complete(&w));
    // The children of the fork before the exit make up the generation.
    assert_eq!(w.fork_count(), 3);
    assert_eq!(w.fork(0), Some(WaveFork { x: 0, y: 2, energy: 16, parent_id: 0 }));
    assert_eq!(w.fork(1), Some(WaveFork { x: 1, y: 1, energy: 16, parent_id: 0 }));
    assert_eq!(w.fork(2), Some(WaveFork { x: 0, y: 0, energy: 16, parent_id: 0 }));
    assert_eq!(step(&mut w), Ok(StepOutcome::Collapsed));
    assert_eq!(w.fork_count(), 3);
    assert_eq!(w.generation(), 2);
    assert_eq!(get_energy(&w), 527);
}

#[test]
fn open_maze_second_step() {
    let mut w = loaded(&open_maze());
    birth_wave(&mut w, 0, 0).unwrap();
    step(&mut w).unwrap();
    assert_eq!(step(&mut w), Ok(StepOutcome::Continuing(6)));
    assert_eq!(get_energy(&w), 424);
    assert_eq!(w.fork(0), Some(WaveFork { x: 0, y: 2, energy: 16, parent_id: 0 }));
    assert_eq!(w.fork(1), Some(WaveFork { x: 1, y: 1, energy: 16, parent_id: 0 }));
    assert_eq!(w.fork(2), Some(WaveFork { x: 0, y: 0, energy: 16, parent_id: 0 }));
    assert_eq!(w.fork(3), Some(WaveFork { x: 1, y: 1, energy: 16, parent_id: 1 }));
    assert_eq!(w.fork(4), Some(WaveFork { x: 2, y: 0, energy: 16, parent_id: 1 }));
    assert_eq!(w.fork(5), Some(WaveFork { x: 0, y: 0, energy: 16, parent_id: 1 }));
}

#[test]
fn run_to_the_end_keeps_the_bounds() {
    let mut w = loaded(&open_maze());
    birth_wave(&mut w, 0, 0).unwrap();
    let mut visited: Vec<usize> = Vec::new();
    let mut last = StepOutcome::Continuing(1);
    for _ in 0..600 {
        last = step(&mut w).unwrap();
        assert!(w.fork_count() <= 64);
        let code = last.status_code();
        assert!(code == 255 || code <= 64);
        let snap = snapshot_of(&w);
        for &i in &visited {
            assert_eq!(snap[i], WAVE);
        }
        for i in 0..64 {
            if snap[i] == WAVE && !visited.contains(&i) {
                visited.push(i);
            }
        }
        if last == StepOutcome::Collapsed {
            break;
        }
    }
    assert_eq!(last, StepOutcome::Collapsed);
    let g = w.generation();
    let e = get_energy(&w);
    assert_eq!(step(&mut w), Ok(StepOutcome::Collapsed));
    assert_eq!(step(&mut w), Ok(StepOutcome::Collapsed));
    assert_eq!(w.generation(), g);
    assert_eq!(get_energy(&w), e);
}

#[test]
fn dead_wave_stays_collapsed() {
    let mut m = open_maze();
    m[1] = WALL;
    m[8] = WALL;
    let mut w = loaded(&m);
    birth_wave(&mut w, 0, 0).unwrap();
    assert_eq!(step(&mut w), Ok(StepOutcome::Continuing(0)));
    assert_eq!(w.generation(), 1);
    for _ in 0..3 {
        let r = step(&mut w).unwrap();
        assert_eq!(r, StepOutcome::Collapsed);
        assert_eq!(r.status_code(), 0);
        assert_eq!(w.generation(), 1);
        assert_eq!(get_energy(&w), 432);
    }
}

#[test]
fn rebirth_resets_the_wave() {
    let mut m = open_maze();
    m[8] = EXIT;
    let mut w = loaded(&m);
    birth_wave(&mut w, 0, 0).unwrap();
    step(&mut w).unwrap();
    step(&mut w).unwrap();
    assert!(is_complete(&w));
    assert_eq!(birth_wave(&mut w, 3, 3), Ok(432));
    assert!(!is_complete(&w));
    assert_eq!(w.generation(), 0);
    assert_eq!(w.fork_count(), 1);
    assert_eq!(w.fork(0), Some(WaveFork { x: 3, y: 3, energy: 100, parent_id: 255 }));
    // The maze keeps the marks of the earlier run.
    assert_eq!(w.cell(1, 0), Some(Cell::Wave));
    assert_eq!(w.cell(0, 1), Some(Cell::Exit));
}

#[test]
fn snapshot_layout() {
    let mut w = loaded(&open_maze());
    birth_wave(&mut w, 0, 0).unwrap();
    step(&mut w).unwrap();
    let snap = snapshot_of(&w);
    assert_eq!(snap.len(), 200);
    assert_eq!(snap[0], START);
    assert_eq!(snap[1], WAVE);
    assert_eq!(snap[8], WAVE);
    assert_eq!(snap[2], PATH);
    assert_eq!(snap[63], EXIT);
    assert_eq!(snap[64], 2);
    assert_eq!(&snap[65..69], &[0, 1, 1, 0]);
    for i in 69..193 {
        assert_eq!(snap[i], 0xAA);
    }
    assert_eq!(snap[193], 0x01);
    assert_eq!(snap[194], 0xAE);
    assert_eq!(snap[195], 0);
    assert_eq!(snap[196], 1);
    assert_eq!(&snap[197..200], &[0xAA, 0xAA, 0xAA]);
}

#[test]
fn snapshot_energy_and_generation_read_back() {
    let mut w = loaded(&open_maze());
    birth_wave(&mut w, 0, 0).unwrap();
    for _ in 0..3 {
        step(&mut w).unwrap();
        let snap = snapshot_of(&w);
        assert_eq!(u16::from_be_bytes([snap[193], snap[194]]), get_energy(&w));
        assert_eq!(u16::from_be_bytes([snap[195], snap[196]]), w.generation());
    }
}

#[test]
fn snapshot_needs_birth_and_room() {
    let mut w = loaded(&open_maze());
    let mut buf = vec![7u8; 197];
    assert_eq!(get_wave_state(&w, &mut buf), Err(WaveError::PreconditionViolation));
    assert_eq!(buf, vec![7u8; 197]);
    birth_wave(&mut w, 0, 0).unwrap();
    let mut short = vec![7u8; 196];
    assert_eq!(get_wave_state(&w, &mut short), Err(WaveError::InvalidInput));
    assert_eq!(short, vec![7u8; 196]);
    assert_eq!(get_wave_state(&w, &mut buf), Ok(()));
    assert_eq!(buf[64], 1);
    assert_eq!(&buf[65..67], &[0, 0]);
    assert_eq!(buf[67], 7);
    assert_eq!(u16::from_be_bytes([buf[193], buf[194]]), 432);
}

#[test]
fn init_maze_checks_its_input() {
    let mut w = LivingWave::new();
    assert_eq!(w.cell(0, 0), Some(Cell::Wall));
    assert_eq!(init_maze(&mut w, &[PATH; 63]), Err(WaveError::InvalidInput));
    let mut bad = open_maze();
    bad[40] = 5;
    assert_eq!(init_maze(&mut w, &bad), Err(WaveError::InvalidInput));
    assert_eq!(w.cell(0, 0), Some(Cell::Wall));
    let mut longer = open_maze();
    longer.push(9);
    assert_eq!(init_maze(&mut w, &longer), Ok(()));
    assert_eq!(w.cell(0, 0), Some(Cell::Start));
    assert_eq!(w.cell(7, 7), Some(Cell::Exit));
    assert_eq!(w.cell(3, 2), Some(Cell::Path));
}

#[test]
fn new_wave_is_unborn() {
    let mut w = LivingWave::new();
    assert_eq!(get_energy(&w), 432);
    assert!(!is_complete(&w));
    assert_eq!(w.fork_count(), 0);
    assert_eq!(w.capacity_dropped(), 0);
    assert_eq!(step(&mut w), Err(WaveError::PreconditionViolation));
}

#[test]
fn cell_tags_round_trip() {
    for t in 0u8..5 {
        assert_eq!(Cell::from_tag(t).unwrap().tag(), t);
    }
    assert_eq!(Cell::from_tag(2), Some(Cell::Exit));
    assert_eq!(Cell::from_tag(5), None);
    assert_eq!(Cell::Wave.tag(), 4);
}

#[test]
fn status_codes() {
    assert_eq!(StepOutcome::Collapsed.status_code(), 0);
    assert_eq!(StepOutcome::ExitFound.status_code(), 255);
    assert_eq!(StepOutcome::Continuing(17).status_code(), 17);
}
