use gridpath::grid::Coord;
use gridpath::grid::TerrainGrid;
use gridpath::grid::TerrainKind;
use gridpath::grid::parse_map_row;
use gridpath::search::find_path;
use gridpath::search::route_cost;

fn c(x: u32, y: u32) -> Coord {
    Coord { x, y }
}

fn grid_from(rows: &[&str]) -> TerrainGrid {
    let mut cells: Vec<TerrainKind> = Vec::new();
    let mut width: u32 = 0;
    for row in rows {
        let chars: Vec<char> = row.chars().collect();
        width = chars.len() as u32;
        let mut parsed = parse_map_row(&chars);
        cells.append(&mut parsed);
    }
    TerrainGrid::new(width, rows.len() as u32, cells).expect("grid dimensions must match")
}

/// Exhaustive minimum cost over all simple paths, for cross-checking the
/// search on small grids.
fn brute_min_cost(
    g: &TerrainGrid,
    cur: Coord,
    to: Coord,
    visited: &mut Vec<Coord>,
    acc: u64,
    best: &mut Option<u64>,
) {
    if cur == to {
        if best.is_none() || acc < best.unwrap() {
            *best = Some(acc);
        }
        return;
    }
    for n in g.neighbors(cur) {
        if !visited.contains(&n) {
            visited.push(n);
            brute_min_cost(g, n, to, visited, acc + g.traversal_cost(n), best);
            visited.pop();
        }
    }
}

fn optimal_cost(g: &TerrainGrid, from: Coord, to: Coord) -> Option<u64> {
    let mut best: Option<u64> = None;
    let mut visited = vec![from];
    brute_min_cost(g, from, to, &mut visited, 0, &mut best);
    best
}

#[test]
fn three_by_one_route_in_reverse_travel_order() {
    let g = grid_from(&["000"]);
    let route = find_path(c(0, 0), c(2, 0), &g).expect("route exists");
    assert_eq!(route, vec![c(2, 0), c(1, 0)]);
}

#[test]
fn all_open_route_length_equals_manhattan_distance() {
    let g = grid_from(&["0000", "0000", "0000", "0000"]);
    let cases = [
        (c(0, 0), c(3, 3)),
        (c(0, 3), c(3, 0)),
        (c(1, 1), c(2, 3)),
        (c(3, 3), c(0, 0)),
    ];
    for (from, to) in cases {
        let route = find_path(from, to, &g).expect("route exists");
        let dist = gridpath::grid::manhattan_distance(from, to);
        assert_eq!(route.len() as u64, dist);
    }
}

#[test]
fn blocked_start_or_goal_is_no_path() {
    let g = grid_from(&["010", "000"]);
    assert!(find_path(c(1, 0), c(0, 0), &g).is_none());
    assert!(find_path(c(0, 0), c(1, 0), &g).is_none());
}

#[test]
fn out_of_range_start_or_goal_is_no_path() {
    let g = grid_from(&["00", "00"]);
    assert!(find_path(c(5, 0), c(0, 0), &g).is_none());
    assert!(find_path(c(0, 0), c(0, 5), &g).is_none());
}

#[test]
fn solid_wall_disconnects() {
    let g = grid_from(&["010", "010", "010"]);
    assert!(find_path(c(0, 1), c(2, 1), &g).is_none());
    assert!(find_path(c(0, 0), c(2, 2), &g).is_none());
    let h = grid_from(&["000", "111", "000"]);
    assert!(find_path(c(1, 0), c(1, 2), &h).is_none());
}

#[test]
fn identical_queries_return_identical_routes() {
    let g = grid_from(&["00200", "01110", "00030", "00000"]);
    let a = find_path(c(0, 0), c(4, 2), &g);
    let b = find_path(c(0, 0), c(4, 2), &g);
    assert_eq!(a, b);
}

#[test]
fn raising_a_route_cell_cost_never_lowers_the_route_cost() {
    let g = grid_from(&["000", "010", "000"]);
    let route = find_path(c(0, 0), c(2, 2), &g).expect("route exists");
    let before = route_cost(&g, &route);
    for cell in &route {
        if *cell == c(2, 2) {
            continue;  // keep the goal passable and cheap
        }
        let mut edited = grid_from(&["000", "010", "000"]);
        edited.set_terrain(*cell, TerrainKind::Heavy);
        let new_route = find_path(c(0, 0), c(2, 2), &edited).expect("route still exists");
        let after = route_cost(&edited, &new_route);
        assert!(after >= before);
        assert_eq!(Some(after), optimal_cost(&edited, c(0, 0), c(2, 2)));
    }
}

#[test]
fn same_cell_query_returns_the_empty_route() {
    let g = grid_from(&["010", "000"]);
    assert_eq!(find_path(c(0, 0), c(0, 0), &g), Some(vec![]));
    // a blocked cell cannot be its own route either
    assert!(find_path(c(1, 0), c(1, 0), &g).is_none());
}

#[test]
fn detour_through_the_open_row() {
    let g = grid_from(&["000", "010", "010"]);
    let route = find_path(c(0, 1), c(2, 1), &g).expect("route exists");
    assert_eq!(route, vec![c(2, 1), c(2, 0), c(1, 0), c(0, 0)]);
    assert_eq!(route_cost(&g, &route), 4);
}

#[test]
fn returned_cost_is_optimal_on_weighted_grids() {
    let grids = [
        grid_from(&["0230", "0412", "3021", "0203"]),
        grid_from(&["0040", "0140", "0100", "2103"]),
        grid_from(&["0000", "1110", "0000", "0111"]),
    ];
    for g in &grids {
        for (from, to) in [(c(0, 0), c(3, 3)), (c(3, 0), c(0, 3)), (c(0, 3), c(3, 0))] {
            let expected = optimal_cost(g, from, to);
            match find_path(from, to, g) {
                Some(route) => {
                    assert_eq!(Some(route_cost(g, &route)), expected);
                }
                None => assert_eq!(expected, None),
            }
        }
    }
}

#[test]
fn route_cost_sums_entered_cells() {
    let g = grid_from(&["024"]);
    let route = vec![c(2, 0), c(1, 0)];
    assert_eq!(route_cost(&g, &route), 10);
    assert_eq!(route_cost(&g, &vec![]), 0);
}

#[test]
fn queries_on_an_empty_grid_find_nothing() {
    let g = TerrainGrid::new(0, 0, Vec::new()).expect("an empty grid is a grid");
    assert!(find_path(c(0, 0), c(0, 0), &g).is_none());
}

#[test]
fn unreachable_enclosed_goal_is_no_path() {
    let g = grid_from(&["00111", "00101", "00111", "00000"]);
    // the goal sits inside a pocket of walls
    assert!(find_path(c(0, 0), c(3, 1), &g).is_none());
}
