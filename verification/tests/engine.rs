use maze_nav::cell::Kind;
use maze_nav::geometry::Direction;
use maze_nav::geometry::Pos;
use maze_nav::maze::Maze;

fn p(x: i32, y: i32) -> Pos {
    Pos { x, y }
}

#[test]
fn new_engine_has_one_start_cell_at_origin() {
    let m = Maze::new();
    assert_eq!(m.position(), p(0, 0));
    assert_eq!(m.heading(), Direction::Up);
    assert_eq!(m.checkpoint(), p(0, 0));
    assert_eq!(m.cell_count(), 1);
    assert_eq!(m.route_len(), 0);
    assert_eq!(m.kind_of(p(0, 0)), Some(Kind::Start));
    assert_eq!(m.kind_of(p(1, 0)), None);
}

#[test]
fn rotations_form_a_group_of_four() {
    for d in [Direction::Up, Direction::Down, Direction::Left, Direction::Right] {
        assert_eq!(d.back().back(), d);
        assert_eq!(d.left().right(), d);
        assert_eq!(d.right().left(), d);
        assert_eq!(d.right().right(), d.back());
    }
    assert_eq!(Direction::Up.right(), Direction::Right);
    assert_eq!(Direction::Up.left(), Direction::Left);
    assert_eq!(Direction::Up.back(), Direction::Down);
}

#[test]
fn add_cell_up_normalizes_then_links_and_first_move_explores() {
    // Scenario A: the new cell would sit at (0,-1), so the normalizer
    // shifts everything one step in y first.
    let mut m = Maze::new();
    m.add_cell(Direction::Up);
    assert_eq!(m.cell_count(), 2);
    assert_eq!(m.position(), p(0, 1));
    assert_eq!(m.kind_of(p(0, 1)), Some(Kind::Start));
    assert_eq!(m.kind_of(p(0, 0)), Some(Kind::Unknown));
    assert_eq!(m.neighbor_of(p(0, 1), Direction::Up), Some(p(0, 0)));
    assert_eq!(m.neighbor_of(p(0, 0), Direction::Down), Some(p(0, 1)));
    let taken = m.move_one();
    assert_eq!(taken, Some(Direction::Up));
    assert_eq!(m.position(), p(0, 0));
    assert_eq!(m.heading(), Direction::Up);
    assert_eq!(m.kind_of(p(0, 0)), Some(Kind::Empty));
}

#[test]
fn get_direction_routes_toward_distant_frontier() {
    // Scenario B: no Unknown neighbor is adjacent, but one sits two hops
    // away through an intermediate Empty cell; the policy must route toward
    // the intermediate cell rather than report completion.
    let mut m = Maze::new();
    m.add_cell(Direction::Down);
    assert_eq!(m.move_one(), Some(Direction::Down));
    assert_eq!(m.position(), p(0, 1));
    m.add_cell(Direction::Right); // frontier at (1,1)
    m.add_cell(Direction::Down);
    assert_eq!(m.move_one(), Some(Direction::Down));
    assert_eq!(m.position(), p(0, 2));
    // now at (0,2): the only neighbor is the Empty cell (0,1); the frontier
    // (1,1) is reachable through it
    let d = m.get_direction();
    assert_eq!(d, Some(Direction::Up));
    assert_eq!(m.route_len(), 1);
}

#[test]
fn move_one_walks_a_found_route_to_the_frontier() {
    // The same map as above, driven by move_one alone: the engine walks the
    // found route hop by hop and reclassifies the frontier on arrival.
    let mut m = Maze::new();
    m.add_cell(Direction::Down);
    assert_eq!(m.move_one(), Some(Direction::Down));
    m.add_cell(Direction::Right);
    m.add_cell(Direction::Down);
    assert_eq!(m.move_one(), Some(Direction::Down));
    assert_eq!(m.position(), p(0, 2));
    assert_eq!(m.move_one(), Some(Direction::Up));
    assert_eq!(m.position(), p(0, 1));
    assert_eq!(m.route_len(), 1);
    assert_eq!(m.move_one(), Some(Direction::Right));
    assert_eq!(m.position(), p(1, 1));
    assert_eq!(m.kind_of(p(1, 1)), Some(Kind::Empty));
    assert_eq!(m.route_len(), 0);
}

#[test]
fn lack_of_progress_restores_checkpoint_exactly() {
    // Scenario C: checkpoint, several moves, then recovery.
    let mut m = Maze::new();
    m.add_cell(Direction::Down);
    assert_eq!(m.move_one(), Some(Direction::Down));
    m.add_checkpoint();
    assert_eq!(m.checkpoint(), p(0, 1));
    assert_eq!(m.kind_of(p(0, 1)), Some(Kind::Checkpoint));
    m.add_cell(Direction::Down);
    assert_eq!(m.move_one(), Some(Direction::Down));
    m.add_cell(Direction::Down);
    assert_eq!(m.move_one(), Some(Direction::Down));
    assert_eq!(m.position(), p(0, 3));
    let count = m.cell_count();
    m.lack_of_progress();
    assert_eq!(m.position(), p(0, 1));
    assert_eq!(m.heading(), Direction::Down);
    assert_eq!(m.cell_count(), count);
    assert_eq!(m.kind_of(p(0, 0)), Some(Kind::Start));
    assert_eq!(m.kind_of(p(0, 1)), Some(Kind::Checkpoint));
    assert_eq!(m.kind_of(p(0, 2)), Some(Kind::Empty));
    assert_eq!(m.kind_of(p(0, 3)), Some(Kind::Empty));
}

#[test]
fn add_cell_twice_is_a_no_op() {
    // Scenario D: relinking an existing neighbor changes nothing.
    let mut m = Maze::new();
    m.add_cell(Direction::Down);
    assert_eq!(m.cell_count(), 2);
    m.add_cell(Direction::Down);
    assert_eq!(m.cell_count(), 2);
    assert_eq!(m.kind_of(p(0, 0)), Some(Kind::Start));
    assert_eq!(m.kind_of(p(0, 1)), Some(Kind::Unknown));
    assert_eq!(m.neighbor_of(p(0, 0), Direction::Down), Some(p(0, 1)));
    assert_eq!(m.neighbor_of(p(0, 1), Direction::Up), Some(p(0, 0)));
    assert_eq!(m.neighbor_of(p(0, 0), Direction::Up), None);
    assert_eq!(m.neighbor_of(p(0, 1), Direction::Down), None);
}

#[test]
fn add_cell_up_twice_is_a_no_op_after_normalizing() {
    let mut m = Maze::new();
    m.add_cell(Direction::Up);
    assert_eq!(m.cell_count(), 2);
    m.add_cell(Direction::Up);
    assert_eq!(m.cell_count(), 2);
    assert_eq!(m.position(), p(0, 1));
    assert_eq!(m.kind_of(p(0, 0)), Some(Kind::Unknown));
    assert_eq!(m.kind_of(p(0, 1)), Some(Kind::Start));
}

#[test]
fn add_black_marks_ahead_cell_and_retreats_one_step() {
    // After moving onto a hazardous tile the engine marks it Black and
    // steps back, leaving the Black cell exactly one step ahead again.
    let mut m = Maze::new();
    m.add_cell(Direction::Down);
    assert_eq!(m.move_one(), Some(Direction::Down));
    assert_eq!(m.position(), p(0, 1));
    m.add_black();
    assert_eq!(m.position(), p(0, 0));
    assert_eq!(m.heading(), Direction::Down);
    assert_eq!(m.kind_of(p(0, 1)), Some(Kind::Black));
    // the cell one step ahead of the restored position is the Black one
    assert_eq!(m.neighbor_of(p(0, 0), Direction::Down), Some(p(0, 1)));
}

#[test]
fn add_black_overwrites_prior_classification() {
    let mut m = Maze::new();
    m.add_cell(Direction::Down);
    assert_eq!(m.move_one(), Some(Direction::Down));
    m.add_victim();
    assert_eq!(m.kind_of(p(0, 1)), Some(Kind::Victim));
    m.add_black();
    assert_eq!(m.kind_of(p(0, 1)), Some(Kind::Black));
    assert_eq!(m.position(), p(0, 0));
}

#[test]
fn finished_exploration_is_terminal_and_idempotent() {
    // With no reachable Unknown cell and the engine on the start cell,
    // move_one reports completion and keeps doing so.
    let mut m = Maze::new();
    assert_eq!(m.move_one(), None);
    assert_eq!(m.move_one(), None);
    assert_eq!(m.position(), p(0, 0));
    assert_eq!(m.cell_count(), 1);
}

#[test]
fn engine_returns_home_then_finishes() {
    let mut m = Maze::new();
    m.add_cell(Direction::Down);
    assert_eq!(m.move_one(), Some(Direction::Down));
    assert_eq!(m.position(), p(0, 1));
    // nothing unexplored is left, so the policy routes back to the start
    assert_eq!(m.move_one(), Some(Direction::Up));
    assert_eq!(m.position(), p(0, 0));
    // home and done: terminal from here on
    assert_eq!(m.move_one(), None);
    assert_eq!(m.move_one(), None);
    assert_eq!(m.position(), p(0, 0));
}

#[test]
fn bfs_never_routes_through_black_cells() {
    // A frontier cell beyond a Black cell is unreachable: the search
    // reports no path rather than one crossing the hazard.
    let mut m = Maze::new();
    m.add_cell(Direction::Down);
    assert_eq!(m.move_one(), Some(Direction::Down));
    m.add_cell(Direction::Down);
    assert_eq!(m.move_one(), Some(Direction::Down));
    assert_eq!(m.position(), p(0, 2));
    m.add_cell(Direction::Down); // frontier at (0,3)
    m.add_black(); // (0,2) becomes Black, engine retreats to (0,1)
    assert_eq!(m.position(), p(0, 1));
    assert_eq!(m.kind_of(p(0, 2)), Some(Kind::Black));
    assert_eq!(m.kind_of(p(0, 3)), Some(Kind::Unknown));
    assert!(m.bfs(Kind::Unknown).is_none());
    // the engine walks home and finishes instead of entering the hazard
    assert_eq!(m.move_one(), Some(Direction::Up));
    assert_eq!(m.position(), p(0, 0));
    assert_eq!(m.move_one(), None);
}

#[test]
fn bfs_enumerates_directions_in_fixed_order() {
    // Two frontier cells at equal distance: the search visits neighbors in
    // the order up, down, left, right, so the one below wins over the one
    // to the right.
    let mut m = Maze::new();
    m.add_cell(Direction::Down);
    m.add_cell(Direction::Right);
    let route = m.bfs(Kind::Unknown).expect("a frontier cell is reachable");
    assert_eq!(route.len(), 1);
    assert_eq!(route[0], p(0, 1));
}

#[test]
fn bfs_on_current_cell_kind_returns_empty_route() {
    let m = Maze::new();
    let route = m.bfs(Kind::Start).expect("standing on the start cell");
    assert_eq!(route.len(), 0);
}

#[test]
fn scan_prefers_right_then_straight_then_left_then_back() {
    // From the start with heading Up and frontier cells on every side, the
    // greedy scan must pick the right-hand one first.
    let mut m = Maze::new();
    m.add_cell(Direction::Down);
    m.add_cell(Direction::Right);
    // heading is Up, so right of the heading is Right: (1,0) wins
    assert_eq!(m.move_one(), Some(Direction::Right));
    assert_eq!(m.position(), p(1, 0));
}

#[test]
fn start_cell_kind_is_never_reassigned() {
    let mut m = Maze::new();
    m.add_checkpoint();
    assert_eq!(m.kind_of(p(0, 0)), Some(Kind::Start));
    assert_eq!(m.checkpoint(), p(0, 0));
    m.add_victim();
    m.add_ramp();
    m.add_blue();
    assert_eq!(m.kind_of(p(0, 0)), Some(Kind::Start));
}

#[test]
fn retagging_overwrites_with_last_write_winning() {
    let mut m = Maze::new();
    m.add_cell(Direction::Down);
    assert_eq!(m.move_one(), Some(Direction::Down));
    m.add_blue();
    assert_eq!(m.kind_of(p(0, 1)), Some(Kind::Blue));
    m.add_ramp();
    assert_eq!(m.kind_of(p(0, 1)), Some(Kind::Ramp));
    m.add_victim();
    assert_eq!(m.kind_of(p(0, 1)), Some(Kind::Victim));
    m.add_checkpoint();
    assert_eq!(m.kind_of(p(0, 1)), Some(Kind::Checkpoint));
    assert_eq!(m.checkpoint(), p(0, 1));
}

#[test]
fn normalizing_translation_preserves_kinds_and_links() {
    // Two normalizer runs (one per axis); every neighbor relation and kind
    // must come out translated but otherwise untouched.
    let mut m = Maze::new();
    m.add_cell(Direction::Up); // shifts y: start (0,1), frontier (0,0)
    m.add_cell(Direction::Left); // shifts x: start (1,1), cells (1,0), (0,1)
    assert_eq!(m.cell_count(), 3);
    assert_eq!(m.position(), p(1, 1));
    assert_eq!(m.kind_of(p(1, 1)), Some(Kind::Start));
    assert_eq!(m.kind_of(p(1, 0)), Some(Kind::Unknown));
    assert_eq!(m.kind_of(p(0, 1)), Some(Kind::Unknown));
    assert_eq!(m.neighbor_of(p(1, 1), Direction::Up), Some(p(1, 0)));
    assert_eq!(m.neighbor_of(p(1, 0), Direction::Down), Some(p(1, 1)));
    assert_eq!(m.neighbor_of(p(1, 1), Direction::Left), Some(p(0, 1)));
    assert_eq!(m.neighbor_of(p(0, 1), Direction::Right), Some(p(1, 1)));
}

#[test]
fn every_link_is_mutually_consistent() {
    // After an arbitrary burst of add_cell calls, each link has its mirror.
    let mut m = Maze::new();
    m.add_cell(Direction::Down);
    m.add_cell(Direction::Right);
    assert_eq!(m.move_one(), Some(Direction::Right));
    m.add_cell(Direction::Down);
    m.add_cell(Direction::Right);
    m.add_cell(Direction::Up);
    let dirs = [Direction::Up, Direction::Down, Direction::Left, Direction::Right];
    for x in -1..4 {
        for y in -1..4 {
            for d in dirs {
                if let Some(q) = m.neighbor_of(p(x, y), d) {
                    assert_eq!(m.neighbor_of(q, d.back()), Some(p(x, y)));
                }
            }
        }
    }
}

#[test]
fn explores_a_closed_loop_and_returns_home() {
    // A four-cell cycle in physical coordinates (y grows downward). The
    // driver reports the open directions at the robot's physical location;
    // the engine may relabel its own coordinates freely, so the finish is
    // checked through kinds, not coordinates.
    let open = |a: (i32, i32), b: (i32, i32)| -> bool {
        let e = |p: (i32, i32), q: (i32, i32)| (a, b) == (p, q) || (a, b) == (q, p);
        e((0, 0), (0, -1)) || e((0, -1), (1, -1)) || e((1, -1), (1, 0)) || e((1, 0), (0, 0))
    };
    let step = |p: (i32, i32), d: Direction| -> (i32, i32) {
        match d {
            Direction::Up => (p.0, p.1 - 1),
            Direction::Down => (p.0, p.1 + 1),
            Direction::Left => (p.0 - 1, p.1),
            Direction::Right => (p.0 + 1, p.1),
        }
    };
    let dirs = [Direction::Up, Direction::Down, Direction::Left, Direction::Right];
    let mut m = Maze::new();
    let mut phys = (0, 0);
    let mut steps = 0;
    loop {
        for d in dirs {
            if open(phys, step(phys, d)) {
                m.add_cell(d);
            }
        }
        match m.move_one() {
            Some(d) => {
                let next = step(phys, d);
                assert!(open(phys, next), "the engine stepped through a wall");
                phys = next;
            }
            None => break,
        }
        steps += 1;
        assert!(steps < 100, "exploration did not terminate");
    }
    // finished: back on the start cell, all four cells discovered, and
    // repeated calls stay finished
    assert_eq!(phys, (0, 0));
    assert_eq!(m.kind_of(m.position()), Some(Kind::Start));
    assert_eq!(m.cell_count(), 4);
    assert_eq!(m.move_one(), None);
    assert_eq!(m.move_one(), None);
}
