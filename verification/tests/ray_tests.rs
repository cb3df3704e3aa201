use maze_pursuit::grid::load_maze;
use maze_pursuit::ray::cast_ray;
use maze_pursuit::ray::line_of_sight_clear;
use maze_pursuit::ray::perspective_correct;

fn rows(lines: &[&str]) -> Vec<Vec<char>> {
    lines.iter().map(|s| s.chars().collect()).collect()
}

#[test]
fn cast_ray_is_deterministic() {
    let g = load_maze(&rows(&["####", "#g #", "####"]), 64).unwrap();
    let a = cast_ray(&g, 96_000, 96_000, 37_123, 2_000_000);
    let b = cast_ray(&g, 96_000, 96_000, 37_123, 2_000_000);
    assert_eq!(a, b);
    let c = cast_ray(&g, 96_000, 96_000, -140_500, 2_000_000);
    let d = cast_ray(&g, 96_000, 96_000, -140_500, 2_000_000);
    assert_eq!(c, d);
}

#[test]
fn cast_ray_hits_the_first_wall_east() {
    // origin at the center of cell (1,1); the wall cell starts at
    // x = 128 units, 32 units away, on a sample boundary
    let g = load_maze(&rows(&["####", "#g##", "####"]), 64).unwrap();
    let hit = cast_ray(&g, 96_000, 96_000, 0, 2_000_000);
    assert_eq!(hit, Some(32_000));
}

#[test]
fn cast_ray_passes_over_the_exit_cell() {
    // the exit cell at (1,1) does not block the ray: it marches
    // through it into the wall behind
    let g = load_maze(&rows(&["####", "# g#", "####"]), 64).unwrap();
    let hit = cast_ray(&g, 96_000, 96_000, 0, 2_000_000);
    assert_eq!(hit, Some(96_000));
}

#[test]
fn cast_ray_reports_no_hit_within_short_range() {
    let g = load_maze(&rows(&["####", "#g #", "####"]), 64).unwrap();
    assert_eq!(cast_ray(&g, 96_000, 96_000, 0, 20_000), None);
}

#[test]
fn cast_ray_outside_the_grid_hits_at_zero() {
    let g = load_maze(&rows(&["####", "#g #", "####"]), 64).unwrap();
    assert_eq!(cast_ray(&g, -5_000, 96_000, 0, 2_000_000), Some(0));
    assert_eq!(cast_ray(&g, 96_000, 1_000_000, 0, 2_000_000), Some(0));
}

#[test]
fn line_of_sight_clear_in_open_corridor() {
    let g = load_maze(&rows(&["######", "#g   #", "######"]), 64).unwrap();
    assert!(line_of_sight_clear(&g, 96_000, 96_000, 288_000, 96_000));
}

#[test]
fn line_of_sight_blocked_by_wall() {
    let g = load_maze(&rows(&["######", "#g#  #", "######"]), 64).unwrap();
    assert!(!line_of_sight_clear(&g, 96_000, 96_000, 288_000, 96_000));
}

#[test]
fn line_of_sight_blocked_outside_grid() {
    let g = load_maze(&rows(&["##", "#g"]), 64).unwrap();
    assert!(!line_of_sight_clear(&g, 96_000, 96_000, 500_000, 96_000));
}

#[test]
fn perspective_correction_scales_by_cosine() {
    // 60 degrees off the view axis: cosine 0.5 exactly
    assert_eq!(perspective_correct(10_000, 60_000, 0), 5_000);
    // aligned with the view axis: unchanged
    assert_eq!(perspective_correct(10_000, 25_000, 25_000), 10_000);
    // perpendicular: collapses to zero
    assert_eq!(perspective_correct(10_000, 90_000, 0), 0);
}
