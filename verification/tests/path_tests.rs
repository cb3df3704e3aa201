use maze_pursuit::grid::load_maze;
use maze_pursuit::path::next_step_towards;

fn rows(lines: &[&str]) -> Vec<Vec<char>> {
    lines.iter().map(|s| s.chars().collect()).collect()
}

#[test]
fn next_step_follows_the_unique_shortest_path() {
    // the only path from (1,1) to (3,3) runs (1,1) (2,1) (2,2) (2,3) (3,3)
    let g = load_maze(&rows(&["#####", "#g ##", "## ##", "##  #", "#####"]), 64).unwrap();
    let sx = 96_000;
    let sy = 96_000;
    let step = next_step_towards(&g, sx, sy, 224_000, 224_000).unwrap();
    // the first step points from the source position to the center of
    // cell (2,1), the correct adjacent cell
    assert_eq!(step, (160_000 - sx, 96_000 - sy));
}

#[test]
fn next_step_picks_the_downward_corridor() {
    let g = load_maze(&rows(&["#####", "#g###", "# ###", "#  ##", "#####"]), 64).unwrap();
    let step = next_step_towards(&g, 96_000, 96_000, 160_000, 224_000).unwrap();
    assert_eq!(step, (0, 160_000 - 96_000));
}

#[test]
fn unreachable_target_gives_none() {
    // two rooms separated by an unbroken wall
    let g = load_maze(&rows(&["#####", "#g# #", "#####"]), 64).unwrap();
    assert_eq!(next_step_towards(&g, 96_000, 96_000, 224_000, 96_000), None);
}

#[test]
fn bad_endpoints_give_none() {
    let g = load_maze(&rows(&["###", "#g#", "###"]), 64).unwrap();
    // wall endpoint
    assert_eq!(next_step_towards(&g, 32_000, 32_000, 96_000, 96_000), None);
    // out-of-bounds endpoints
    assert_eq!(next_step_towards(&g, 96_000, 96_000, 500_000, 96_000), None);
    assert_eq!(next_step_towards(&g, -5, 96_000, 96_000, 96_000), None);
}

#[test]
fn same_cell_points_at_its_own_center() {
    let g = load_maze(&rows(&["###", "#g#", "###"]), 64).unwrap();
    // source slightly off the cell center, target in the same cell:
    // the vector points back to the center
    let step = next_step_towards(&g, 90_000, 100_000, 96_000, 96_000).unwrap();
    assert_eq!(step, (6_000, -4_000));
}

#[test]
fn next_step_is_deterministic() {
    let g = load_maze(&rows(&["#####", "#g  #", "#   #", "#####"]), 64).unwrap();
    let a = next_step_towards(&g, 96_000, 96_000, 224_000, 160_000);
    let b = next_step_towards(&g, 96_000, 96_000, 224_000, 160_000);
    assert_eq!(a, b);
}
