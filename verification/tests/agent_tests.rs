use maze_pursuit::grid::load_maze;
use maze_pursuit::grid::Grid;
use maze_pursuit::agent::Enemy;
use maze_pursuit::agent::AgentState;

fn rows(lines: &[&str]) -> Vec<Vec<char>> {
    lines.iter().map(|s| s.chars().collect()).collect()
}

fn open_ten_by_ten() -> Grid {
    let row = "          ";
    load_maze(&rows(&[row, row, row, row, row, row, row, row, row, row]), 64).unwrap()
}

fn ten_by_ten_with_wall_column_at_two() -> Grid {
    let row = "  #       ";
    load_maze(&rows(&[row, row, row, row, row, row, row, row, row, row]), 64).unwrap()
}

#[test]
fn sees_target_across_open_grid() {
    // agent in cell (0,0) facing the target in cell (5,5): within
    // range, dead ahead, nothing in between
    let g = open_ten_by_ten();
    let mut e = Enemy::new(32_000, 32_000, 0);
    e.a = 45_000;
    assert!(e.sees_player(&g, 352_000, 352_000));
}

#[test]
fn wall_column_blocks_line_of_sight() {
    let g = ten_by_ten_with_wall_column_at_two();
    let mut e = Enemy::new(32_000, 32_000, 0);
    e.a = 45_000;
    assert!(!e.sees_player(&g, 352_000, 352_000));
}

#[test]
fn vision_boundary_is_closed_at_half_fov() {
    // target due east; half the field of view is 60 degrees
    let g = open_ten_by_ten();
    let mut e = Enemy::new(32_000, 32_000, 0);
    e.a = 60_000;
    assert!(e.sees_player(&g, 352_000, 32_000));
    e.a = 60_001;
    assert!(!e.sees_player(&g, 352_000, 32_000));
    e.a = -60_000;
    assert!(e.sees_player(&g, 352_000, 32_000));
    e.a = -60_001;
    assert!(!e.sees_player(&g, 352_000, 32_000));
}

#[test]
fn target_beyond_range_is_not_seen() {
    let row: String = std::iter::repeat(' ').take(30).collect();
    let rs: Vec<&str> = vec![row.as_str(); 3];
    let g = load_maze(&rows(&rs), 64).unwrap();
    let mut e = Enemy::new(32_000, 96_000, 0);
    // range is 1100 units: a target 1104 units away is out of reach,
    // 1088 units away is seen
    assert!(!e.sees_player(&g, 32_000 + 1_104_000, 96_000));
    assert!(e.sees_player(&g, 32_000 + 1_088_000, 96_000));
    e.active = true;
    assert!(e.active);
}

fn wall_split_grid() -> Grid {
    // a full wall column at x = 5 splits left from right for both
    // sight and movement
    let row = "     #    ";
    load_maze(&rows(&[row, row, row, row, row, row, row, row, row, row]), 64).unwrap()
}

#[test]
fn chase_holds_for_memory_then_cooldown_then_patrol() {
    // scenario: the agent sees the target once, loses it, and the
    // clocks run: 5 seconds of chase memory, then cooldown for 2.5
    // seconds, then patrol
    let g = wall_split_grid();
    let mut e = Enemy::new(96_000, 96_000, 0);
    e.active = true;
    // target visible just ahead on the left side
    e.update(&g, 200_000, 96_000, 100);
    assert_eq!(e.state, AgentState::Chase);
    assert!(e.has_last_seen);
    // the target teleports behind the wall: never seen again
    let hx = 600_000;
    let hy = 96_000;
    // 50 unseen frames of 0.1 s: memory runs to zero, still chasing
    for _ in 0..50 {
        e.update(&g, hx, hy, 100);
        assert_eq!(e.state, AgentState::Chase);
    }
    // one more frame: memory exhausted, cooldown begins
    e.update(&g, hx, hy, 100);
    assert_eq!(e.state, AgentState::Cooldown);
    assert!(!e.has_last_seen);
    // 24 more frames: cooldown still positive
    for _ in 0..24 {
        e.update(&g, hx, hy, 100);
        assert_eq!(e.state, AgentState::Cooldown);
    }
    // the frame that empties the countdown returns to patrol
    e.update(&g, hx, hy, 100);
    assert_eq!(e.state, AgentState::Patrol);
}

#[test]
fn memory_refreshes_while_target_stays_visible() {
    let g = open_ten_by_ten();
    let mut e = Enemy::new(96_000, 96_000, 0);
    e.active = true;
    for _ in 0..20 {
        // the target keeps standing in plain sight well ahead: the
        // chase memory is re-armed every frame instead of decaying
        e.update(&g, 550_000, 96_000, 100);
        assert_eq!(e.state, AgentState::Chase);
        assert_eq!(e.memory_time, 5000);
    }
}

#[test]
fn searching_the_last_seen_spot_forgets_it() {
    let g = wall_split_grid();
    let mut e = Enemy::new(96_000, 96_000, 0);
    e.active = true;
    e.state = AgentState::Chase;
    e.memory_time = 5000;
    e.has_last_seen = true;
    // the remembered spot is 10 units away, within the forget radius
    e.last_seen_x = 106_000;
    e.last_seen_y = 96_000;
    // the target itself is hidden behind the wall
    e.update(&g, 600_000, 96_000, 100);
    assert_eq!(e.state, AgentState::Chase);
    assert!(!e.has_last_seen);
}

#[test]
fn inactive_agent_does_nothing() {
    let g = open_ten_by_ten();
    let mut e = Enemy::new(96_000, 96_000, 0);
    let before_x = e.x;
    e.update(&g, 200_000, 96_000, 100);
    assert_eq!(e.state, AgentState::Patrol);
    assert_eq!(e.x, before_x);
    assert!(!e.is_chasing());
}

#[test]
fn is_chasing_tracks_the_state() {
    let g = open_ten_by_ten();
    let mut e = Enemy::new(96_000, 96_000, 0);
    e.active = true;
    assert!(!e.is_chasing());
    e.update(&g, 200_000, 96_000, 100);
    assert!(e.is_chasing());
}

#[test]
fn facing_label_keeps_within_hysteresis_band() {
    let mut e = Enemy::new(96_000, 96_000, 25_000);
    // camera due south of the agent: angle to camera is 90 degrees,
    // 65 degrees off the heading — nominally 'E', but inside the
    // widened 'S' band, so the initial 'S' is kept
    assert_eq!(e.facing_key_for_camera(96_000, 196_000), 'S');
    assert_eq!(e.last_face, 'S');
    // heading shifts: 85 degrees off is outside the band, flips to 'E'
    e.a = 5_000;
    assert_eq!(e.facing_key_for_camera(96_000, 196_000), 'E');
    assert_eq!(e.last_face, 'E');
    // and from 'E', 65 degrees is inside the widened 'E' band: kept
    e.a = 25_000;
    assert_eq!(e.facing_key_for_camera(96_000, 196_000), 'E');
}

#[test]
fn facing_label_cardinal_points() {
    let mut e = Enemy::new(0, 0, 0);
    // camera dead ahead: the agent's face ('S' sprite)
    assert_eq!(e.facing_key_for_camera(100_000, 0), 'S');
    let mut e2 = Enemy::new(0, 0, 0);
    // camera straight behind: seen from the back ('N' sprite)
    assert_eq!(e2.facing_key_for_camera(-100_000, 0), 'N');
    let mut e3 = Enemy::new(0, 0, 0);
    // camera at +90 degrees: left side ('E' sprite)
    assert_eq!(e3.facing_key_for_camera(0, 100_000), 'E');
    let mut e4 = Enemy::new(0, 0, 0);
    // camera at -90 degrees: right side ('W' sprite)
    assert_eq!(e4.facing_key_for_camera(0, -100_000), 'W');
}

#[test]
fn chasing_agent_closes_in_on_a_visible_target() {
    let g = open_ten_by_ten();
    let mut e = Enemy::new(96_000, 96_000, 0);
    e.active = true;
    let tx = 500_000;
    let ty = 96_000;
    let d0 = (tx - e.x).abs();
    for _ in 0..20 {
        e.update(&g, tx, ty, 100);
    }
    let d1 = (tx - e.x).abs();
    assert!(d1 < d0);
    assert_eq!(e.state, AgentState::Chase);
}
