//! The exploration policy: choose the next heading from the pending route,
//! a local greedy scan biased like a wall follower, or a breadth-first
//! search for the nearest frontier cell, falling back to a search for the
//! way home; and the movement step that follows the chosen heading.

use vstd::prelude::*;

use crate::cell::Cell;
use crate::cell::Kind;
use crate::cell::nbr;
use crate::geometry::Direction;
use crate::geometry::Pos;
use crate::geometry::adjacent;
use crate::geometry::direction_between;
use crate::geometry::is_step;
use crate::geometry::lemma_direction_between;
use crate::maze::Maze;
use crate::maze::MazeView;
use crate::maze::cell_at;
use crate::maze::has_pos;
use crate::maze::idx_of;
use crate::maze::kind_at;
use crate::maze::lemma_idx_of;
use crate::maze::lemma_with_kind;
use crate::maze::link_ok;
use crate::maze::route_connected;
use crate::maze::view_fields;
use crate::maze::visit_kind;
use crate::maze::with_kind;
use crate::search::is_chain;
use crate::search::lemma_one_step_reachable;
use crate::search::linked;
use crate::search::reachable_kind;

verus! {

/// The neighbor of the current cell in direction `d` exists and is an
/// unexplored frontier cell.
pub open spec fn unknown_neighbor(v: MazeView, d: Direction) -> bool {
    match nbr(cell_at(v.cells, v.pos), d) {
        None => false,
        Some(q) => has_pos(v.cells, q) && kind_at(v.cells, q) == Kind::Unknown,
    }
}

/// The heading the local greedy scan picks: the first of right, straight,
/// left, back — relative to the current heading, in that fixed priority —
/// whose neighbor cell exists and is still Unknown.
pub open spec fn scan_choice(v: MazeView) -> Option<Direction> {
    if unknown_neighbor(v, v.dir.spec_right()) {
        Some(v.dir.spec_right())
    } else if unknown_neighbor(v, v.dir) {
        Some(v.dir)
    } else if unknown_neighbor(v, v.dir.spec_left()) {
        Some(v.dir.spec_left())
    } else if unknown_neighbor(v, v.dir.spec_back()) {
        Some(v.dir.spec_back())
    } else {
        None
    }
}

/// The exploration policy yields a heading in exactly these cases: a pending
/// route, an adjacent frontier cell, a reachable frontier cell somewhere
/// else, or a way back to a start cell the engine is not standing on.
pub open spec fn can_step(v: MazeView) -> bool {
    ||| v.path.len() > 0
    ||| scan_choice(v) is Some
    ||| (kind_at(v.cells, v.pos) != Kind::Unknown && reachable_kind(
        v.cells,
        v.pos,
        Kind::Unknown,
    ))
    ||| (kind_at(v.cells, v.pos) != Kind::Start && reachable_kind(v.cells, v.pos, Kind::Start))
}

/// Once no frontier cell is reachable and the way home is gone or already
/// under the engine, no rule of the policy can yield a heading.
pub proof fn lemma_finished_cannot_step(v: MazeView)
    requires
        v.wf(),
        v.path.len() == 0,
        !reachable_kind(v.cells, v.pos, Kind::Unknown),
        !reachable_kind(v.cells, v.pos, Kind::Start) || kind_at(v.cells, v.pos) == Kind::Start,
    ensures
        !can_step(v),
{
    if scan_choice(v) is Some {
        let d = scan_choice(v)->0;
        assert(unknown_neighbor(v, d));
        match nbr(cell_at(v.cells, v.pos), d) {
            None => {},
            Some(q) => {
                assert(linked(v.cells, v.pos, q));
                lemma_one_step_reachable(v.cells, v.pos, q, Kind::Unknown);
            },
        }
    }
    if kind_at(v.cells, v.pos) == Kind::Start {
        let i = idx_of(v.cells, v.pos);
        assert(0 <= i < v.cells.len() && v.cells[i].pos == v.pos);
        assert(is_chain(v.cells, v.pos, Seq::<Pos>::empty()));
        assert(reachable_kind(v.cells, v.pos, Kind::Start));
    }
}

impl Maze {
    /// Whether the scan finds an Unknown neighbor in direction `d`.
    fn scan_dir(&self, d: Direction) -> (r: bool)
        requires
            self@.wf(),
        ensures
            r == unknown_neighbor(self@, d),
    {
        proof {
            view_fields(self);
        }
        let pi = self.index_of_current();
        proof {
            lemma_idx_of(self@.cells, pi as int);
        }
        let c = self.cells[pi];
        match c.neighbor(d) {
            None => false,
            Some(q) => {
                match self.cell_index(q) {
                    None => false,
                    Some(qi) => {
                        proof {
                            lemma_idx_of(self@.cells, qi as int);
                        }
                        self.cells[qi].kind == Kind::Unknown
                    },
                }
            },
        }
    }

    /// The next heading per the exploration policy, or `None` when
    /// exploration is complete. In priority order: pop the pending route;
    /// scan right, straight, left, back for an adjacent Unknown cell; search
    /// for the nearest reachable Unknown cell and store the found route;
    /// search for the start cell the same way. Black cells are never
    /// traversed. Popping the route leaves the engine one heading ahead of
    /// it; `move_one` is the caller that takes the step.
    pub fn get_direction(&mut self) -> (r: Option<Direction>)
        requires
            old(self)@.wf(),
        ensures
            final(self)@.cells == old(self)@.cells,
            final(self)@.pos == old(self)@.pos,
            final(self)@.dir == old(self)@.dir,
            final(self)@.last_checkpoint == old(self)@.last_checkpoint,
            r is Some <==> can_step(old(self)@),
            r is None ==> final(self)@.path == old(self)@.path,
            old(self)@.path.len() > 0 ==> r == Some(
                direction_between(old(self)@.pos, old(self)@.path[0]),
            ) && final(self)@.path == old(self)@.path.drop_first(),
            old(self)@.path.len() == 0 && scan_choice(old(self)@) is Some ==> r == scan_choice(
                old(self)@,
            ) && final(self)@.path == old(self)@.path,
            r matches Some(d) ==> exists|q: Pos|
                is_step(old(self)@.pos, d, q) && #[trigger] has_pos(old(self)@.cells, q)
                    && route_connected(old(self)@.cells, q, final(self)@.path),
    {
        proof {
            view_fields(self);
        }
        let ghost v0 = self@;
        if self.path.len() > 0 {
            let coordinate = self.path.remove(0);
            proof {
                view_fields(self);
                assert(coordinate == v0.path[0]);
                assert(self@.path =~= v0.path.drop_first());
                assert(adjacent(v0.pos, coordinate));
            }
            let d = self.coordinate_to_direction(coordinate);
            proof {
                lemma_direction_between(v0.pos, coordinate);
                assert(route_connected(v0.cells, coordinate, self@.path)) by {
                    let np = self@.path;
                    assert forall|j: int| 0 <= j < np.len() implies has_pos(
                        v0.cells,
                        #[trigger] np[j],
                    ) by {
                        assert(np[j] == v0.path[j + 1]);
                    }
                    if np.len() > 0 {
                        assert(np[0] == v0.path[1]);
                        assert(adjacent(v0.path[0], v0.path[1]));
                    }
                    assert forall|j: int| 0 <= j && j + 1 < np.len() implies adjacent(
                        #[trigger] np[j],
                        np[j + 1],
                    ) by {
                        assert(np[j] == v0.path[j + 1] && np[j + 1] == v0.path[j + 2]);
                        assert(adjacent(v0.path[j + 1], v0.path[j + 2]));
                    }
                }
            }
            return Some(d);
        }
        let right_direction = self.dir.right();
        let straight_direction = self.dir;
        let left_direction = self.dir.left();
        let back_direction = self.dir.back();
        if self.scan_dir(right_direction) {
            proof {
                lemma_scan_step(v0, right_direction);
            }
            return Some(right_direction);
        }
        if self.scan_dir(straight_direction) {
            proof {
                lemma_scan_step(v0, straight_direction);
            }
            return Some(straight_direction);
        }
        if self.scan_dir(left_direction) {
            proof {
                lemma_scan_step(v0, left_direction);
            }
            return Some(left_direction);
        }
        if self.scan_dir(back_direction) {
            proof {
                lemma_scan_step(v0, back_direction);
            }
            return Some(back_direction);
        }
        match self.bfs(Kind::Unknown) {
            Some(p) => {
                if p.len() > 0 {
                    let d = self.follow_route(p);
                    proof {
                        assert(kind_at(v0.cells, v0.pos) != Kind::Unknown);
                        assert(can_step(v0));
                    }
                    return Some(d);
                }
                proof {
                    assert(kind_at(v0.cells, v0.pos) == Kind::Unknown);
                }
            },
            None => {
                proof {
                    assert(!reachable_kind(v0.cells, v0.pos, Kind::Unknown));
                }
            },
        }
        match self.bfs(Kind::Start) {
            Some(p) => {
                if p.len() > 0 {
                    let d = self.follow_route(p);
                    proof {
                        assert(kind_at(v0.cells, v0.pos) != Kind::Start);
                        assert(can_step(v0));
                    }
                    return Some(d);
                }
                proof {
                    assert(kind_at(v0.cells, v0.pos) == Kind::Start);
                }
            },
            None => {
                proof {
                    assert(!reachable_kind(v0.cells, v0.pos, Kind::Start));
                }
            },
        }
        proof {
            assert(!can_step(v0));
        }
        None
    }

    /// Stores a found route, pops its first waypoint and returns the heading
    /// toward it.
    fn follow_route(&mut self, p: Vec<Pos>) -> (d: Direction)
        requires
            old(self)@.wf(),
            old(self)@.path.len() == 0,
            is_chain(old(self)@.cells, old(self)@.pos, p@),
            p@.len() > 0,
        ensures
            final(self)@.cells == old(self)@.cells,
            final(self)@.pos == old(self)@.pos,
            final(self)@.dir == old(self)@.dir,
            final(self)@.last_checkpoint == old(self)@.last_checkpoint,
            exists|q: Pos|
                is_step(old(self)@.pos, d, q) && #[trigger] has_pos(old(self)@.cells, q)
                    && route_connected(old(self)@.cells, q, final(self)@.path),
    {
        proof {
            view_fields(self);
        }
        let ghost v0 = self@;
        let ghost pth = p@;
        self.path = p;
        let coordinate = self.path.remove(0);
        proof {
            view_fields(self);
            assert(coordinate == pth[0]);
            assert(self@.path =~= pth.drop_first());
            assert(linked(v0.cells, v0.pos, coordinate));
            lemma_linked_adjacent(v0.cells, v0.pos, coordinate);
        }
        let d = self.coordinate_to_direction(coordinate);
        proof {
            lemma_direction_between(v0.pos, coordinate);
            assert(route_connected(v0.cells, coordinate, self@.path)) by {
                let np = self@.path;
                assert forall|j: int| 0 <= j < np.len() implies has_pos(
                    v0.cells,
                    #[trigger] np[j],
                ) by {
                    assert(np[j] == pth[j + 1]);
                }
                if np.len() > 0 {
                    assert(np[0] == pth[1]);
                    assert(linked(v0.cells, pth[0], pth[1]));
                    lemma_linked_adjacent(v0.cells, pth[0], pth[1]);
                }
                assert forall|j: int| 0 <= j && j + 1 < np.len() implies adjacent(
                    #[trigger] np[j],
                    np[j + 1],
                ) by {
                    assert(np[j] == pth[j + 1] && np[j + 1] == pth[j + 2]);
                    assert(linked(v0.cells, pth[j + 1], pth[j + 2]));
                    lemma_linked_adjacent(v0.cells, pth[j + 1], pth[j + 2]);
                }
            }
        }
        d
    }

    /// Advances one step: asks the policy for a heading; if it yields one,
    /// turns to it, moves the position one step that way, and reclassifies
    /// the entered cell from Unknown to Empty. Returns the heading taken, or
    /// `None` when exploration is complete — and then changes nothing, so
    /// repeated calls keep returning `None`.
    pub fn move_one(&mut self) -> (r: Option<Direction>)
        requires
            old(self)@.wf(),
        ensures
            final(self)@.wf(),
            r is None ==> final(self)@ == old(self)@,
            r is Some <==> can_step(old(self)@),
            r matches Some(d) ==> ({
                &&& final(self)@.dir == d
                &&& is_step(old(self)@.pos, d, final(self)@.pos)
                &&& has_pos(old(self)@.cells, final(self)@.pos)
                &&& final(self)@.last_checkpoint == old(self)@.last_checkpoint
                &&& final(self)@.cells == with_kind(
                    old(self)@.cells,
                    final(self)@.pos,
                    visit_kind(kind_at(old(self)@.cells, final(self)@.pos)),
                )
                &&& kind_at(final(self)@.cells, final(self)@.pos) == visit_kind(
                    kind_at(old(self)@.cells, final(self)@.pos),
                )
            }),
            old(self)@.path.len() > 0 ==> r == Some(
                direction_between(old(self)@.pos, old(self)@.path[0]),
            ) && final(self)@.path == old(self)@.path.drop_first(),
            old(self)@.path.len() == 0 && scan_choice(old(self)@) is Some ==> r == scan_choice(
                old(self)@,
            ) && final(self)@.path == old(self)@.path,
            (old(self)@.path.len() == 0 && !reachable_kind(
                old(self)@.cells,
                old(self)@.pos,
                Kind::Unknown,
            ) && (!reachable_kind(old(self)@.cells, old(self)@.pos, Kind::Start) || kind_at(
                old(self)@.cells,
                old(self)@.pos,
            ) == Kind::Start)) ==> r is None && final(self)@ == old(self)@,
    {
        let ghost v0 = self@;
        proof {
            if v0.path.len() == 0 && !reachable_kind(v0.cells, v0.pos, Kind::Unknown) && (
            !reachable_kind(v0.cells, v0.pos, Kind::Start) || kind_at(v0.cells, v0.pos)
                == Kind::Start) {
                lemma_finished_cannot_step(v0);
            }
        }
        match self.get_direction() {
            None => {
                proof {
                    assert(self@ =~= v0);
                }
                None
            },
            Some(direction) => {
                proof {
                    view_fields(self);
                }
                let ghost q = choose|q: Pos|
                    is_step(v0.pos, direction, q) && #[trigger] has_pos(v0.cells, q)
                        && route_connected(v0.cells, q, self@.path);
                proof {
                    assert(is_step(v0.pos, direction, q) && has_pos(v0.cells, q)
                        && route_connected(v0.cells, q, self@.path));
                }
                self.dir = direction;
                let np = match direction {
                    Direction::Up => Pos { x: self.pos.x, y: self.pos.y - 1 },
                    Direction::Down => Pos { x: self.pos.x, y: self.pos.y + 1 },
                    Direction::Left => Pos { x: self.pos.x - 1, y: self.pos.y },
                    Direction::Right => Pos { x: self.pos.x + 1, y: self.pos.y },
                };
                proof {
                    view_fields(self);
                    assert(np == q);
                }
                self.pos = np;
                let ghost route = self@.path;
                proof {
                    view_fields(self);
                    assert(self@.cells == v0.cells);
                    assert(has_pos(self@.cells, self@.pos));
                }
                let pi = self.index_of_current();
                proof {
                    view_fields(self);
                    lemma_idx_of(v0.cells, pi as int);
                    lemma_with_kind(v0.cells, np, visit_kind(kind_at(v0.cells, np)));
                }
                let mut c = self.cells[pi];
                if c.kind == Kind::Unknown {
                    c.kind = Kind::Empty;
                    self.cells[pi] = c;
                } else {
                    proof {
                        assert(with_kind(v0.cells, np, visit_kind(kind_at(v0.cells, np)))
                            =~= v0.cells);
                    }
                }
                proof {
                    view_fields(self);
                    let s2 = self@.cells;
                    assert(s2 == with_kind(v0.cells, np, visit_kind(kind_at(v0.cells, np))));
                    assert(has_pos(s2, self@.pos));
                    assert(has_pos(s2, self@.last_checkpoint));
                    assert(route_connected(s2, self@.pos, self@.path)) by {
                        assert(self@.path == route);
                        assert(route_connected(v0.cells, np, route));
                        assert(forall|j: int|
                            0 <= j < route.len() ==> has_pos(s2, #[trigger] route[j]));
                    }
                }
                Some(direction)
            },
        }
    }
}

/// Linked cells are one step apart, hence adjacent.
pub proof fn lemma_linked_adjacent(s: Seq<Cell>, p: Pos, q: Pos)
    requires
        crate::maze::links_wf(s),
        crate::maze::positions_unique(s),
        linked(s, p, q),
    ensures
        adjacent(p, q),
        is_step(p, direction_between(p, q), q),
{
    let i = idx_of(s, p);
    assert(0 <= i < s.len() && s[i].pos == p);
    let d = choose|d: Direction| #[trigger] nbr(cell_at(s, p), d) == Some(q);
    assert(link_ok(s, s[i], d));
    assert(is_step(p, d, q));
    lemma_direction_between(p, q);
}

/// A successful scan in direction `d` names an adjacent frontier cell, which
/// is then reachable in one step; the step's target witnesses the heading.
proof fn lemma_scan_step(v: MazeView, d: Direction)
    requires
        v.wf(),
        v.path.len() == 0,
        unknown_neighbor(v, d),
    ensures
        can_step(v),
        exists|q: Pos|
            is_step(v.pos, d, q) && #[trigger] has_pos(v.cells, q) && route_connected(
                v.cells,
                q,
                v.path,
            ),
{
    match nbr(cell_at(v.cells, v.pos), d) {
        None => {},
        Some(q) => {
            assert(linked(v.cells, v.pos, q));
            let i = idx_of(v.cells, v.pos);
            assert(0 <= i < v.cells.len() && v.cells[i].pos == v.pos);
            assert(link_ok(v.cells, v.cells[i], d));
            assert(is_step(v.pos, d, q));
            assert(route_connected(v.cells, q, v.path));
            assert(scan_choice(v) is Some);
        },
    }
}

} // verus!
