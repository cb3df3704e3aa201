use maze_pursuit::grid::load_maze;
use maze_pursuit::grid::Grid;
use maze_pursuit::motion::is_free_radius;
use maze_pursuit::motion::try_move_with_slide;
use maze_pursuit::motion::Player;
use maze_pursuit::motion::player_step;

fn rows(lines: &[&str]) -> Vec<Vec<char>> {
    lines.iter().map(|s| s.chars().collect()).collect()
}

fn room() -> Grid {
    load_maze(
        &rows(&["#######", "#g    #", "#     #", "#     #", "#######"]),
        64,
    )
    .unwrap()
}

#[test]
fn slide_blocks_one_axis_and_keeps_the_other() {
    let g = room();
    // near the north wall of the room, moving diagonally up-right:
    // the y axis is blocked, the x axis slides
    let mut x: i64 = 160_000;
    let mut y: i64 = 80_000;
    let moved = try_move_with_slide(&g, 10_000, &mut x, &mut y, 5_000, -10_000);
    assert!(moved);
    assert_eq!(x, 165_000);
    assert_eq!(y, 80_000);
}

#[test]
fn blocked_on_both_axes_stays_put() {
    let g = room();
    let mut x: i64 = 96_000;
    let mut y: i64 = 96_000;
    let moved = try_move_with_slide(&g, 10_000, &mut x, &mut y, -40_000, -40_000);
    assert!(!moved);
    assert_eq!(x, 96_000);
    assert_eq!(y, 96_000);
}

#[test]
fn wall_containment_over_many_random_moves() {
    // property run: from a free start, no sequence of sliding moves
    // ever leaves the collision circle overlapping a wall
    let g = room();
    let radius: i64 = 10_000;
    let mut x: i64 = 200_000;
    let mut y: i64 = 150_000;
    assert!(is_free_radius(&g, x, y, radius));
    let mut seed: u64 = 0x2545_f491_4f6c_dd1d;
    for _ in 0..500 {
        seed = seed.wrapping_mul(6_364_136_223_846_793_005).wrapping_add(1_442_695_040_888_963_407);
        let dx = ((seed >> 16) % 40_001) as i64 - 20_000;
        let dy = ((seed >> 40) % 40_001) as i64 - 20_000;
        try_move_with_slide(&g, radius, &mut x, &mut y, dx, dy);
        assert!(is_free_radius(&g, x, y, radius));
    }
}

#[test]
fn player_walks_forward_at_walking_speed() {
    let g = room();
    let mut p = Player::new(160_000, 160_000, 0);
    // facing east, one tenth of a second: 200 units/s * 0.1 s = 20 units
    let touched = player_step(&g, &mut p, 1, 0, 0, false, 100);
    assert!(!touched);
    assert_eq!(p.x, 180_000);
    assert_eq!(p.y, 160_000);
    assert!(!p.sprinting);
}

#[test]
fn player_sprints_faster_and_turns_by_mouse_delta() {
    let g = room();
    let mut p = Player::new(160_000, 160_000, 0);
    let _ = player_step(&g, &mut p, 1, 0, 45_000, true, 100);
    assert_eq!(p.a, 45_000);
    assert!(p.sprinting);
    // 340 units/s * 0.1 s along the diagonal: components 707/1000
    assert_eq!(p.x, 160_000 + 34_000 * 707 / 1000);
    assert_eq!(p.y, 160_000 + 34_000 * 707 / 1000);
}

#[test]
fn player_standing_still_does_not_sprint() {
    let g = room();
    let mut p = Player::new(160_000, 160_000, 0);
    let _ = player_step(&g, &mut p, 0, 0, 0, true, 100);
    assert!(!p.sprinting);
    assert_eq!(p.x, 160_000);
    assert_eq!(p.y, 160_000);
}

#[test]
fn player_touches_the_exit_cell() {
    let g = room();
    // standing just right of the exit cell (1,1), walking west
    let mut p = Player::new(130_000, 96_000, 180_000);
    let mut touched = false;
    for _ in 0..20 {
        if player_step(&g, &mut p, 1, 0, 0, false, 100) {
            touched = true;
            break;
        }
    }
    assert!(touched);
}
