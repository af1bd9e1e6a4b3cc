use maze_nav::geometry::Direction;
use maze_nav::maze::Maze;

#[test]
fn render_fresh_engine_is_a_padded_single_cell() {
    let m = Maze::new();
    let lines = m.render_lines();
    assert_eq!(lines.len(), 3);
    assert_eq!(lines[0], ". . . ");
    assert_eq!(lines[1], ". ^ . ");
    assert_eq!(lines[2], ". . . ");
}

#[test]
fn render_shows_frontier_cells() {
    let mut m = Maze::new();
    m.add_cell(Direction::Down);
    let lines = m.render_lines();
    assert_eq!(lines.len(), 4);
    assert_eq!(lines[0], ". . . ");
    assert_eq!(lines[1], ". ^ . ");
    assert_eq!(lines[2], ". ? . ");
    assert_eq!(lines[3], ". . . ");
}

#[test]
fn render_marks_black_cells_and_heading() {
    let mut m = Maze::new();
    m.add_cell(Direction::Down);
    assert_eq!(m.move_one(), Some(Direction::Down));
    m.add_black();
    let lines = m.render_lines();
    assert_eq!(lines.len(), 4);
    assert_eq!(lines[0], ". . . ");
    assert_eq!(lines[1], ". v . ");
    assert_eq!(lines[2], ". # . ");
    assert_eq!(lines[3], ". . . ");
}

#[test]
fn render_marks_pending_route_cells() {
    let mut m = Maze::new();
    m.add_cell(Direction::Down);
    assert_eq!(m.move_one(), Some(Direction::Down));
    m.add_cell(Direction::Right);
    m.add_cell(Direction::Down);
    assert_eq!(m.move_one(), Some(Direction::Down));
    assert_eq!(m.get_direction(), Some(Direction::Up));
    // the remaining route holds the frontier cell (1,1), drawn as a star
    let lines = m.render_lines();
    assert_eq!(lines.len(), 5);
    assert_eq!(lines[0], ". . . . ");
    assert_eq!(lines[1], ". S . . ");
    assert_eq!(lines[2], ".   * . ");
    assert_eq!(lines[3], ". v . . ");
    assert_eq!(lines[4], ". . . . ");
}
