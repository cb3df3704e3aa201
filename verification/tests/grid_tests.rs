use maze_pursuit::grid::Cell;
use maze_pursuit::grid::Grid;
use maze_pursuit::grid::load_maze;

fn rows(lines: &[&str]) -> Vec<Vec<char>> {
    lines.iter().map(|s| s.chars().collect()).collect()
}

fn cell(g: &Grid, i: usize, j: usize) -> Cell {
    g.cell_at(i, j)
}

#[test]
fn load_maze_maps_characters() {
    let g = load_maze(&rows(&["# g", "#\t "]), 64).unwrap();
    assert_eq!(g.width, 3);
    assert_eq!(g.height, 2);
    assert_eq!(g.block, 64);
    assert_eq!(cell(&g, 0, 0), Cell::Wall);
    assert_eq!(cell(&g, 1, 0), Cell::Open);
    assert_eq!(cell(&g, 2, 0), Cell::Exit);
    assert_eq!(cell(&g, 0, 1), Cell::Wall);
    assert_eq!(cell(&g, 1, 1), Cell::Open);
    assert_eq!(cell(&g, 2, 1), Cell::Open);
}

#[test]
fn load_maze_pads_short_rows_with_wall() {
    let g = load_maze(&rows(&["g###", "#"]), 64).unwrap();
    assert_eq!(g.width, 4);
    assert_eq!(g.height, 2);
    assert_eq!(cell(&g, 1, 1), Cell::Wall);
    assert_eq!(cell(&g, 2, 1), Cell::Wall);
    assert_eq!(cell(&g, 3, 1), Cell::Wall);
}

#[test]
fn load_maze_skips_empty_rows() {
    let g = load_maze(&rows(&["", "#g", ""]), 64).unwrap();
    assert_eq!(g.height, 1);
    assert_eq!(g.width, 2);
}

#[test]
fn load_maze_synthesizes_exit_at_farthest_open_cell() {
    let g = load_maze(&rows(&["   ", "   ", "   "]), 64).unwrap();
    // no exit in the layout: the open cell farthest from the origin
    // by squared index distance becomes the exit
    assert_eq!(cell(&g, 2, 2), Cell::Exit);
    assert_eq!(cell(&g, 0, 0), Cell::Open);
    assert_eq!(cell(&g, 1, 2), Cell::Open);
}

#[test]
fn load_maze_all_wall_keeps_no_exit() {
    let g = load_maze(&rows(&["##", "##"]), 64).unwrap();
    for j in 0..2 {
        for i in 0..2 {
            assert_eq!(cell(&g, i, j), Cell::Wall);
        }
    }
}

#[test]
fn load_maze_rejects_bad_input() {
    assert!(load_maze(&rows(&[]), 64).is_none());
    assert!(load_maze(&rows(&["", ""]), 64).is_none());
    assert!(load_maze(&rows(&["g"]), 0).is_none());
    assert!(load_maze(&rows(&["g"]), 1001).is_none());
    let long: String = std::iter::repeat(' ').take(1001).collect();
    assert!(load_maze(&rows(&[long.as_str()]), 64).is_none());
}

#[test]
fn point_queries_respect_cells_and_bounds() {
    let g = load_maze(&rows(&["#g", "# "]), 64).unwrap();
    // cell (0,0) is wall, (1,0) is the exit, (1,1) open
    assert!(!g.point_free(32_000, 32_000));
    assert!(g.point_free(96_000, 32_000));
    assert!(g.point_free(96_000, 96_000));
    assert!(g.point_is_exit(96_000, 32_000));
    assert!(!g.point_is_exit(96_000, 96_000));
    // outside the grid nothing is free and nothing is the exit
    assert!(!g.point_free(-1, 32_000));
    assert!(!g.point_free(32_000, 200_000));
    assert!(!g.point_is_exit(-5, -5));
}
