use maze_pursuit::grid::load_maze;
use maze_pursuit::orbs::safe_cell;
use maze_pursuit::orbs::spawn_orbs_in_empty_cells;
use maze_pursuit::orbs::count_free_cells;
use maze_pursuit::orbs::desired_orb_count;

fn rows(lines: &[&str]) -> Vec<Vec<char>> {
    lines.iter().map(|s| s.chars().collect()).collect()
}

#[test]
fn safe_cells_keep_clear_of_walls() {
    let g = load_maze(&rows(&["#####", "#g  #", "#   #", "#####"]), 64).unwrap();
    // cells bordered by a wall are unsafe, the grid edge rows are walls
    assert!(!safe_cell(&g, 1, 1));
    assert!(!safe_cell(&g, 0, 0));
    // no interior cell of this small room avoids every wall
    assert!(!safe_cell(&g, 2, 1));
    // in a wider room, the middle is safe
    let g2 = load_maze(&rows(&["#####", "#g  #", "#   #", "#   #", "#####"]), 64).unwrap();
    assert!(safe_cell(&g2, 2, 2));
    assert!(!safe_cell(&g2, 1, 2));
}

#[test]
fn spawned_orbs_cover_all_safe_cells_when_count_allows() {
    let g = load_maze(&rows(&["#####", "#g  #", "#   #", "#   #", "#####"]), 64).unwrap();
    // the single safe cell is (2,2)
    let orbs = spawn_orbs_in_empty_cells(&g, 10);
    assert_eq!(orbs.len(), 1);
    assert!(orbs[0].active);
    assert_eq!((orbs[0].x, orbs[0].y), (160_000, 160_000));
}

#[test]
fn spawned_orbs_sit_on_distinct_safe_centers() {
    let row_open: String = std::iter::repeat(' ').take(12).collect();
    let mut layout: Vec<&str> = Vec::new();
    for _ in 0..12 {
        layout.push(row_open.as_str());
    }
    let g = load_maze(&rows(&layout), 64).unwrap();
    let orbs = spawn_orbs_in_empty_cells(&g, 15);
    assert_eq!(orbs.len(), 15);
    for a in 0..orbs.len() {
        assert!(orbs[a].active);
        // each orb sits at some cell center
        assert_eq!((orbs[a].x - 32_000) % 64_000, 0);
        assert_eq!((orbs[a].y - 32_000) % 64_000, 0);
        for b in 0..a {
            assert!((orbs[a].x, orbs[a].y) != (orbs[b].x, orbs[b].y));
        }
    }
}

#[test]
fn free_cell_count_is_exact() {
    let g = load_maze(&rows(&["#####", "#g  #", "#   #", "#####"]), 64).unwrap();
    assert_eq!(count_free_cells(&g), 6);
}

#[test]
fn orb_count_formula_clamps() {
    assert_eq!(desired_orb_count(0), 20);
    assert_eq!(desired_orb_count(99), 20);
    assert_eq!(desired_orb_count(100), 20);
    assert_eq!(desired_orb_count(101), 20);
    assert_eq!(desired_orb_count(500), 100);
    assert_eq!(desired_orb_count(902), 180);
    assert_eq!(desired_orb_count(10_000), 180);
}
