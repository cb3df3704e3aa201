use maze_pursuit::cadence::StepCadence;
use maze_pursuit::cadence::StepSignal;
use maze_pursuit::cadence::enemy_step_volume;
use maze_pursuit::assets::load_bytes_any;

#[test]
fn footsteps_follow_the_walking_stride() {
    let mut c = StepCadence::new(0, 0);
    assert_eq!(c.update(0, 0, false, false), StepSignal::Stop);
    // movement starts: an immediate first step
    assert_eq!(c.update(0, 0, true, false), StepSignal::First);
    // 10 units per frame; the walking stride is 34 units
    assert_eq!(c.update(10_000, 0, true, false), StepSignal::Silent);
    assert_eq!(c.update(20_000, 0, true, false), StepSignal::Silent);
    assert_eq!(c.update(30_000, 0, true, false), StepSignal::Silent);
    assert_eq!(c.update(40_000, 0, true, false), StepSignal::Step);
    assert_eq!(c.accum, 6_000);
    // stopping cuts the audio and resets the accumulator
    assert_eq!(c.update(40_000, 0, false, false), StepSignal::Stop);
    assert_eq!(c.accum, 0);
}

#[test]
fn sprinting_shortens_the_stride() {
    let mut c = StepCadence::new(0, 0);
    assert_eq!(c.update(0, 0, true, true), StepSignal::First);
    assert_eq!(c.update(10_000, 0, true, true), StepSignal::Silent);
    // 22-unit sprint stride: the second 10-unit frame stays silent,
    // the third crosses it
    assert_eq!(c.update(20_000, 0, true, true), StepSignal::Silent);
    assert_eq!(c.update(30_000, 0, true, true), StepSignal::Step);
    assert_eq!(c.accum, 8_000);
}

#[test]
fn enemy_volume_rises_with_proximity() {
    // far beyond the band: floor volume
    assert_eq!(enemy_step_volume(450_000), 250);
    assert_eq!(enemy_step_volume(1_000_000), 250);
    // at the close edge of the band: full volume
    assert_eq!(enemy_step_volume(30_000), 1700);
    assert_eq!(enemy_step_volume(0), 1700);
    // halfway along the band
    assert_eq!(enemy_step_volume(240_000), 975);
}

#[test]
fn first_successful_load_wins() {
    let mut attempts: Vec<Option<Vec<u8>>> = vec![
        None,
        Some(vec![1, 2, 3]),
        Some(vec![9]),
    ];
    assert_eq!(load_bytes_any(&mut attempts), Some(vec![1, 2, 3]));
}

#[test]
fn no_successful_load_gives_none() {
    let mut attempts: Vec<Option<Vec<u8>>> = vec![None, None];
    assert_eq!(load_bytes_any(&mut attempts), None);
    let mut empty: Vec<Option<Vec<u8>>> = Vec::new();
    assert_eq!(load_bytes_any(&mut empty), None);
}
