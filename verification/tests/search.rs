use astar_grid::astar::{
    find_path, get_path_nodes, start_path_finding, update_path_finding, Node, StepResult,
};
use astar_grid::{manhattan, tchebychev, CellState, Position};

fn free_grid(row_length: u32) -> Vec<CellState> {
    vec![CellState::Normal; (row_length * row_length) as usize]
}

fn idx(x: u16, y: u16, row_length: u32) -> usize {
    (y as u32 * row_length + x as u32) as usize
}

#[test]
fn manhattan_exact_values() {
    assert_eq!(manhattan(Position::new(0, 0), Position::new(3, 4)), 7);
    assert_eq!(manhattan(Position::new(3, 4), Position::new(0, 0)), 7);
    assert_eq!(manhattan(Position::new(2, 2), Position::new(2, 2)), 0);
}

#[test]
fn tchebychev_exact_values() {
    assert_eq!(tchebychev(Position::new(0, 0), Position::new(3, 4)), 4);
    assert_eq!(tchebychev(Position::new(3, 4), Position::new(0, 0)), 4);
    assert_eq!(tchebychev(Position::new(5, 1), Position::new(1, 1)), 4);
    assert_eq!(tchebychev(Position::new(2, 2), Position::new(2, 2)), 0);
}

#[test]
fn node_new_fields() {
    let n = Node::new(Position::new(3, 7), 40, 2);
    assert_eq!(n.pos, Position(3, 7));
    assert_eq!(n.g_cost, 40);
    assert_eq!(n.h_cost, 2);
    assert_eq!(n.f_cost, 42);
    assert!(n.parent.is_none());
}

#[test]
fn compute_costs_without_parent() {
    let closed: Vec<Node> = vec![];
    let target = Node::new(Position::new(3, 1), 0, 0);
    let mut n = Node::new(Position::new(0, 0), 0, 0);
    let (g, h, f) = n.compute_costs(target, &closed);
    // Chebyshev distance 3, scaled by 10; no parent means no accumulated cost
    assert_eq!((g, h, f), (30, 0, 30));
    assert_eq!(n.f_cost, 30);
}

#[test]
fn compute_costs_diagonal_and_straight_step() {
    let parent = Node::new(Position::new(1, 1), 0, 5);
    let closed = vec![parent];
    let target = Node::new(Position::new(2, 2), 0, 0);

    let mut diag = Node::new(Position::new(2, 2), 0, 0);
    diag.parent = Some(0);
    let (g, h, f) = diag.compute_costs(target, &closed);
    // both coordinates change: diagonal step adds 14 to the parent's cost
    assert_eq!((g, h, f), (0, 19, 19));

    let mut straight = Node::new(Position::new(2, 1), 0, 0);
    straight.parent = Some(0);
    let (g2, h2, _f2) = straight.compute_costs(target, &closed);
    // one coordinate changes: straight step adds 1 to the parent's cost
    assert_eq!(h2, 6);
    assert_eq!(g2, tchebychev(Position::new(2, 1), Position::new(2, 2)) * 10);
}

#[test]
fn computed_matches_compute_costs() {
    let closed: Vec<Node> = vec![];
    let target = Node::new(Position::new(4, 0), 0, 0);
    let n = Node::new(Position::new(0, 0), 0, 0).computed(target, &closed);
    assert_eq!(n.g_cost, 40);
    assert_eq!(n.h_cost, 0);
    assert_eq!(n.f_cost, 40);
}

#[test]
fn neighbours_corner_and_center() {
    let n = Node::new(Position::new(0, 0), 0, 0);
    let corner = n.get_neighbours(3);
    assert_eq!(corner.len(), 3);
    assert!(corner.iter().any(|m| m.pos == Position(1, 1)));
    assert!(corner.iter().all(|m| m.parent.is_none()));
    assert!(corner.iter().all(|m| m.pos.0 < 3 && m.pos.1 < 3));

    let c = Node::new(Position::new(1, 1), 0, 0);
    assert_eq!(c.get_neighbours(3).len(), 8);
}

#[test]
fn neighbours_ovh_are_edge_sharing() {
    let n = Node::new(Position::new(0, 0), 0, 0);
    let nb = n.get_neighbours_ovh(3);
    assert_eq!(nb.len(), 2);
    assert!(nb.iter().any(|m| m.pos == Position(1, 0)));
    assert!(nb.iter().any(|m| m.pos == Position(0, 1)));

    let c = Node::new(Position::new(1, 1), 0, 0);
    assert_eq!(c.get_neighbours_ovh(3).len(), 4);
}

#[test]
fn traversable_checks_walls_and_range() {
    let mut states = free_grid(2);
    states[idx(1, 0, 2)] = CellState::Solid;
    let open_cell = Node::new(Position::new(0, 0), 0, 0);
    let wall = Node::new(Position::new(1, 0), 0, 0);
    let outside = Node::new(Position::new(5, 5), 0, 0);
    assert!(open_cell.is_traversable(&states, 2));
    assert!(!wall.is_traversable(&states, 2));
    assert!(!outside.is_traversable(&states, 2));
}

#[test]
fn path_nodes_follow_parent_links() {
    let a = Node::new(Position::new(0, 0), 0, 0);
    let mut b = Node::new(Position::new(1, 1), 0, 0);
    b.parent = Some(0);
    let mut c = Node::new(Position::new(2, 1), 0, 0);
    c.parent = Some(1);
    let closed = vec![a, b, c];
    let path = get_path_nodes(&c, &closed);
    assert_eq!(path.len(), 3);
    assert_eq!(path[0].pos, Position(0, 0));
    assert_eq!(path[1].pos, Position(1, 1));
    assert_eq!(path[2].pos, Position(2, 1));
}

#[test]
fn seeding_resets_any_prior_state() {
    let start = Node::new(Position::new(2, 3), 10, 0);
    let mut opened = vec![
        Node::new(Position::new(9, 9), 1, 2),
        Node::new(Position::new(4, 4), 3, 4),
    ];
    let mut closed = vec![Node::new(Position::new(7, 7), 5, 6)];
    start_path_finding(start, &mut opened, &mut closed);
    assert_eq!(opened.len(), 1);
    assert_eq!(opened[0].pos, Position(2, 3));
    assert!(closed.is_empty());
    // calling again from the state it just produced changes nothing
    start_path_finding(start, &mut opened, &mut closed);
    assert_eq!(opened.len(), 1);
    assert_eq!(opened[0].pos, Position(2, 3));
    assert!(closed.is_empty());
}

#[test]
fn start_equal_to_target_gives_single_node_path() {
    let mut states = free_grid(3);
    let start = Node::new(Position::new(1, 1), 0, 0);
    let end = Node::new(Position::new(1, 1), 0, 0);
    let path = find_path(start, end, &mut states, 3).expect("a trivial path must exist");
    assert_eq!(path.len(), 1);
    assert_eq!(path[0].pos, Position(1, 1));
    assert!(matches!(states[idx(1, 1, 3)], CellState::Path));
}

#[test]
fn straight_run_on_free_grid() {
    let mut states = free_grid(5);
    let start = Node::new(Position::new(0, 0), 40, 0);
    let end = Node::new(Position::new(4, 0), 0, 0);
    let path = find_path(start, end, &mut states, 5).expect("free grid must have a path");
    assert!(path.len() <= 5);
    assert_eq!(path[0].pos, Position(0, 0));
    assert_eq!(path[path.len() - 1].pos, Position(4, 0));
    for n in &path {
        assert!(matches!(states[idx(n.pos.0, n.pos.1, 5)], CellState::Path));
    }
}

#[test]
fn free_grid_path_is_adjacent_chain() {
    let mut states = free_grid(6);
    let start = Node::new(Position::new(0, 0), 50, 0);
    let end = Node::new(Position::new(5, 3), 0, 0);
    let path = find_path(start, end, &mut states, 6).expect("free grid must have a path");
    assert_eq!(path[0].pos, Position(0, 0));
    assert_eq!(path[path.len() - 1].pos, Position(5, 3));
    for w in path.windows(2) {
        let dx = (w[0].pos.0 as i32 - w[1].pos.0 as i32).abs();
        let dy = (w[0].pos.1 as i32 - w[1].pos.1 as i32).abs();
        assert!(dx <= 1 && dy <= 1);
        assert!(dx + dy >= 1);
    }
}

#[test]
fn path_routes_around_obstacle() {
    let mut states = free_grid(3);
    states[idx(1, 0, 3)] = CellState::Solid;
    let start = Node::new(Position::new(0, 0), 20, 0);
    let end = Node::new(Position::new(2, 0), 0, 0);
    let path = find_path(start, end, &mut states, 3).expect("a detour exists");
    assert_eq!(path[path.len() - 1].pos, Position(2, 0));
    for n in &path {
        assert_ne!(n.pos, Position(1, 0));
    }
    // the detour runs through one of the cells below the wall
    assert!(path
        .iter()
        .any(|n| n.pos == Position(1, 1) || n.pos == Position(0, 1) || n.pos == Position(2, 1)));
    // the wall is untouched: still Solid, never marked by the search
    assert!(matches!(states[idx(1, 0, 3)], CellState::Solid));
}

#[test]
fn walls_are_never_disturbed() {
    let mut states = free_grid(4);
    // a wall across the second row with a gap at its right end
    states[idx(0, 1, 4)] = CellState::Solid;
    states[idx(1, 1, 4)] = CellState::Solid;
    states[idx(2, 1, 4)] = CellState::Solid;
    let start = Node::new(Position::new(0, 0), 30, 0);
    let end = Node::new(Position::new(0, 3), 0, 0);
    let path = find_path(start, end, &mut states, 4).expect("the gap lets a path through");
    for n in &path {
        assert!(n.pos != Position(0, 1) && n.pos != Position(1, 1) && n.pos != Position(2, 1));
    }
    assert!(matches!(states[idx(0, 1, 4)], CellState::Solid));
    assert!(matches!(states[idx(1, 1, 4)], CellState::Solid));
    assert!(matches!(states[idx(2, 1, 4)], CellState::Solid));
}

#[test]
fn surrounded_start_reports_no_path() {
    let mut states = free_grid(4);
    states[idx(1, 0, 4)] = CellState::Solid;
    states[idx(0, 1, 4)] = CellState::Solid;
    states[idx(1, 1, 4)] = CellState::Solid;
    let start = Node::new(Position::new(0, 0), 30, 0);
    let end = Node::new(Position::new(3, 3), 0, 0);
    assert!(find_path(start, end, &mut states, 4).is_none());
}

#[test]
fn surrounded_start_exhausts_stepped_search() {
    let mut states = free_grid(4);
    states[idx(1, 0, 4)] = CellState::Solid;
    states[idx(0, 1, 4)] = CellState::Solid;
    let start = Node::new(Position::new(0, 0), 30, 0);
    let end = Node::new(Position::new(3, 3), 0, 0);
    let mut opened: Vec<Node> = vec![];
    let mut closed: Vec<Node> = vec![];
    start_path_finding(start, &mut opened, &mut closed);
    // the first step expands the start node and finds no traversable neighbour
    let first = update_path_finding(start, end, &mut states, &mut opened, &mut closed, 4);
    assert_eq!(first, StepResult::Searching);
    assert!(opened.is_empty());
    // the next step reports exhaustion instead of looping forever
    let second = update_path_finding(start, end, &mut states, &mut opened, &mut closed, 4);
    assert_eq!(second, StepResult::Exhausted);
}

#[test]
fn stepped_and_full_search_reach_the_same_target() {
    let end_pos = Position::new(0, 2);

    // run-to-completion, eight-connected
    let mut run_states = free_grid(3);
    let run_path = find_path(
        Node::new(Position::new(0, 0), 20, 0),
        Node::new(end_pos, 0, 0),
        &mut run_states,
        3,
    )
    .expect("free grid must have a path");

    // repeated single steps, four-connected, on a separate grid
    let mut step_states = free_grid(3);
    let start = Node::new(Position::new(0, 0), 20, 0);
    let end = Node::new(end_pos, 0, 0);
    let mut opened: Vec<Node> = vec![];
    let mut closed: Vec<Node> = vec![];
    start_path_finding(start, &mut opened, &mut closed);
    let mut outcome = StepResult::Searching;
    for _ in 0..100 {
        outcome = update_path_finding(start, end, &mut step_states, &mut opened, &mut closed, 3);
        if outcome != StepResult::Searching {
            break;
        }
    }
    assert_eq!(outcome, StepResult::Found);

    // both searches stopped exactly at the target cell
    assert_eq!(closed[closed.len() - 1].pos, end_pos);
    assert_eq!(run_path[run_path.len() - 1].pos, end_pos);
    assert!(matches!(
        step_states[idx(end_pos.0, end_pos.1, 3)],
        CellState::Path
    ));
}

#[test]
fn stepped_search_marks_cells_as_it_goes() {
    let mut states = free_grid(3);
    let start = Node::new(Position::new(0, 0), 20, 0);
    let end = Node::new(Position::new(2, 0), 0, 0);
    let mut opened: Vec<Node> = vec![];
    let mut closed: Vec<Node> = vec![];
    start_path_finding(start, &mut opened, &mut closed);
    let r = update_path_finding(start, end, &mut states, &mut opened, &mut closed, 3);
    assert_eq!(r, StepResult::Searching);
    // the expanded start cell is marked Closed, its frontier cells Opened
    assert!(matches!(states[idx(0, 0, 3)], CellState::Closed));
    assert!(matches!(states[idx(1, 0, 3)], CellState::Opened));
    assert!(matches!(states[idx(0, 1, 3)], CellState::Opened));
}
