use gridpath::grid::Coord;
use gridpath::grid::TerrainGrid;
use gridpath::grid::TerrainKind;
use gridpath::grid::kind_cost;
use gridpath::grid::kind_of_char;
use gridpath::grid::manhattan_distance;
use gridpath::grid::parse_map_row;

fn c(x: u32, y: u32) -> Coord {
    Coord { x, y }
}

fn grid_from(rows: &[&str]) -> TerrainGrid {
    let mut cells: Vec<TerrainKind> = Vec::new();
    let mut width: u32 = 0;
    for row in rows {
        let chars: Vec<char> = row.chars().collect();
        width = chars.len() as u32;
        let mut parsed = parse_map_row(&chars);
        cells.append(&mut parsed);
    }
    TerrainGrid::new(width, rows.len() as u32, cells).expect("grid dimensions must match")
}

#[test]
fn char_decoding_covers_all_kinds() {
    assert_eq!(kind_of_char('0'), TerrainKind::Open);
    assert_eq!(kind_of_char('1'), TerrainKind::Blocked);
    assert_eq!(kind_of_char('2'), TerrainKind::Light);
    assert_eq!(kind_of_char('3'), TerrainKind::Medium);
    assert_eq!(kind_of_char('4'), TerrainKind::Heavy);
    assert_eq!(kind_of_char('x'), TerrainKind::Blocked);
    assert_eq!(kind_of_char(' '), TerrainKind::Blocked);
}

#[test]
fn parse_row_maps_each_character() {
    let chars: Vec<char> = "0123 4".chars().collect();
    let row = parse_map_row(&chars);
    assert_eq!(
        row,
        vec![
            TerrainKind::Open,
            TerrainKind::Blocked,
            TerrainKind::Light,
            TerrainKind::Medium,
            TerrainKind::Blocked,
            TerrainKind::Heavy,
        ]
    );
}

#[test]
fn cost_model_values() {
    assert_eq!(kind_cost(TerrainKind::Open), 1);
    assert_eq!(kind_cost(TerrainKind::Blocked), 1);
    assert_eq!(kind_cost(TerrainKind::Light), 2);
    assert_eq!(kind_cost(TerrainKind::Medium), 4);
    assert_eq!(kind_cost(TerrainKind::Heavy), 8);
}

#[test]
fn manhattan_distance_values() {
    assert_eq!(manhattan_distance(c(0, 0), c(0, 0)), 0);
    assert_eq!(manhattan_distance(c(0, 0), c(2, 0)), 2);
    assert_eq!(manhattan_distance(c(2, 0), c(0, 0)), 2);
    assert_eq!(manhattan_distance(c(1, 5), c(4, 1)), 7);
    assert_eq!(manhattan_distance(c(4, 1), c(1, 5)), 7);
}

#[test]
fn new_rejects_mismatched_cell_count() {
    let cells = vec![TerrainKind::Open; 5];
    assert!(TerrainGrid::new(2, 2, cells).is_none());
    let cells = vec![TerrainKind::Open; 4];
    assert!(TerrainGrid::new(2, 2, cells).is_some());
}

#[test]
fn new_accepts_the_largest_grid_and_rejects_one_past_it() {
    let cells = vec![TerrainKind::Open; 4096 * 4096];
    assert!(TerrainGrid::new(4096, 4096, cells).is_some());
    let cells = vec![TerrainKind::Open; 4097 * 4096];
    assert!(TerrainGrid::new(4097, 4096, cells).is_none());
}

#[test]
fn empty_grid_has_no_cells() {
    let g = TerrainGrid::new(0, 0, Vec::new()).expect("an empty grid is a grid");
    assert_eq!(g.terrain_at(c(0, 0)), None);
    assert!(g.neighbors(c(0, 0)).is_empty());
}

#[test]
fn terrain_at_reads_row_major_cells() {
    let g = grid_from(&["012", "340"]);
    assert_eq!(g.width(), 3);
    assert_eq!(g.height(), 2);
    assert_eq!(g.terrain_at(c(0, 0)), Some(TerrainKind::Open));
    assert_eq!(g.terrain_at(c(1, 0)), Some(TerrainKind::Blocked));
    assert_eq!(g.terrain_at(c(2, 0)), Some(TerrainKind::Light));
    assert_eq!(g.terrain_at(c(0, 1)), Some(TerrainKind::Medium));
    assert_eq!(g.terrain_at(c(1, 1)), Some(TerrainKind::Heavy));
    assert_eq!(g.terrain_at(c(2, 1)), Some(TerrainKind::Open));
}

#[test]
fn terrain_at_out_of_range_is_none() {
    let g = grid_from(&["00", "00"]);
    assert_eq!(g.terrain_at(c(2, 0)), None);
    assert_eq!(g.terrain_at(c(0, 2)), None);
    assert_eq!(g.terrain_at(c(7, 7)), None);
}

#[test]
fn set_terrain_rewrites_one_cell() {
    let mut g = grid_from(&["00", "00"]);
    g.set_terrain(c(1, 0), TerrainKind::Heavy);
    assert_eq!(g.terrain_at(c(1, 0)), Some(TerrainKind::Heavy));
    assert_eq!(g.terrain_at(c(0, 0)), Some(TerrainKind::Open));
    assert_eq!(g.terrain_at(c(0, 1)), Some(TerrainKind::Open));
    assert_eq!(g.terrain_at(c(1, 1)), Some(TerrainKind::Open));
}

#[test]
fn set_terrain_out_of_range_is_a_no_op() {
    let mut g = grid_from(&["00", "00"]);
    g.set_terrain(c(5, 5), TerrainKind::Heavy);
    for y in 0..2 {
        for x in 0..2 {
            assert_eq!(g.terrain_at(c(x, y)), Some(TerrainKind::Open));
        }
    }
}

#[test]
fn traversal_cost_follows_the_cost_model() {
    let g = grid_from(&["012", "340"]);
    assert_eq!(g.traversal_cost(c(0, 0)), 1);
    assert_eq!(g.traversal_cost(c(1, 0)), 1);
    assert_eq!(g.traversal_cost(c(2, 0)), 2);
    assert_eq!(g.traversal_cost(c(0, 1)), 4);
    assert_eq!(g.traversal_cost(c(1, 1)), 8);
    // the out-of-range default
    assert_eq!(g.traversal_cost(c(9, 9)), 1);
}

#[test]
fn neighbors_come_in_north_south_west_east_order() {
    let g = grid_from(&["000", "000", "000"]);
    let n = g.neighbors(c(1, 1));
    assert_eq!(n, vec![c(1, 0), c(1, 2), c(0, 1), c(2, 1)]);
}

#[test]
fn neighbors_exclude_blocked_cells() {
    let g = grid_from(&["010", "001", "000"]);
    let n = g.neighbors(c(1, 1));
    assert_eq!(n, vec![c(1, 2), c(0, 1)]);
}

#[test]
fn neighbors_exclude_cells_past_the_edge() {
    let g = grid_from(&["000", "000", "000"]);
    assert_eq!(g.neighbors(c(0, 0)), vec![c(0, 1), c(1, 0)]);
    assert_eq!(g.neighbors(c(2, 2)), vec![c(2, 1), c(1, 2)]);
}
