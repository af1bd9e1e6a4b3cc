//! The maze engine: the store of discovered cells and the operations the
//! exploration loop calls on it.

use vstd::prelude::*;

use crate::cell::Cell;
use crate::cell::Kind;
use crate::cell::nbr;
use crate::cell::with_nbr;
use crate::geometry::Direction;
use crate::geometry::Pos;
use crate::geometry::adjacent;
use crate::geometry::dir_dx;
use crate::geometry::dir_dy;
use crate::geometry::direction_between;
use crate::geometry::is_step;
use crate::shift::cell_shift_ok;
use crate::shift::cells_shift_ok;
use crate::shift::lemma_shift_preserves_step;
use crate::shift::lemma_translation_preserves_links;
use crate::shift::lemma_translation_preserves_structure;
use crate::shift::opt_shift_ok;
use crate::shift::pos_shift_ok;
use crate::shift::route_shift_ok;
use crate::shift::shift_cell;
use crate::shift::shift_cells;
use crate::shift::shift_opt;
use crate::shift::shift_pos;
use crate::shift::shift_route;

verus! {

/// Bound on how many cells a maze may hold, so that every coordinate, which
/// well-formedness keeps below the cell count, stays clear of `i32` overflow
/// even while the normalizer shifts the whole store by one.
pub const MAX_CELLS: usize = 0x4000_0000;

/// The mathematical model of a maze: the engine state as contracts see it.
#[verifier::ext_equal]
pub ghost struct MazeView {
    /// Current heading.
    pub dir: Direction,
    /// Current position; always the position of a stored cell.
    pub pos: Pos,
    /// Position of the last recorded checkpoint.
    pub last_checkpoint: Pos,
    /// Every discovered cell, keyed by its position.
    pub cells: Seq<Cell>,
    /// The pending planned route, oldest waypoint first.
    pub path: Seq<Pos>,
}

/// Some stored cell sits at position `p`.
pub open spec fn has_pos(s: Seq<Cell>, p: Pos) -> bool {
    exists|i: int| 0 <= i < s.len() && s[i].pos == p
}

/// The index of the stored cell at position `p` (meaningful under
/// `positions_unique` when `has_pos(s, p)`).
pub open spec fn idx_of(s: Seq<Cell>, p: Pos) -> int {
    choose|i: int| 0 <= i < s.len() && s[i].pos == p
}

/// The stored cell at position `p`.
pub open spec fn cell_at(s: Seq<Cell>, p: Pos) -> Cell {
    s[idx_of(s, p)]
}

/// The kind of the stored cell at position `p`.
pub open spec fn kind_at(s: Seq<Cell>, p: Pos) -> Kind {
    cell_at(s, p).kind
}

/// No two stored cells share a position.
pub open spec fn positions_unique(s: Seq<Cell>) -> bool {
    forall|i: int, j: int|
        0 <= i < s.len() && 0 <= j < s.len() && s[i].pos == s[j].pos ==> i == j
}

/// Every stored coordinate lies between zero and the cell count. The upper
/// bound grows with the store, which keeps insertion and the normalizer's
/// one-step shift inductively in range.
pub open spec fn coords_bounded(s: Seq<Cell>) -> bool {
    forall|i: int|
        0 <= i < s.len() ==> 0 <= (#[trigger] s[i]).pos.x <= s.len() && 0 <= s[i].pos.y
            <= s.len()
}

/// The link of cell `c` in direction `d`, if present, points one step away
/// to a stored cell whose opposite link points straight back.
pub open spec fn link_ok(s: Seq<Cell>, c: Cell, d: Direction) -> bool {
    match nbr(c, d) {
        None => true,
        Some(q) => is_step(c.pos, d, q) && has_pos(s, q) && nbr(cell_at(s, q), d.spec_back())
            == Some(c.pos),
    }
}

/// Undirected consistency of the whole store: every link is geometric and
/// mutual.
pub open spec fn links_wf(s: Seq<Cell>) -> bool {
    forall|i: int, d: Direction| 0 <= i < s.len() ==> #[trigger] link_ok(s, s[i], d)
}

/// Exactly one stored cell has kind `Start`.
pub open spec fn one_start(s: Seq<Cell>) -> bool {
    &&& exists|i: int| 0 <= i < s.len() && (#[trigger] s[i]).kind == Kind::Start
    &&& forall|i: int, j: int|
        0 <= i < s.len() && 0 <= j < s.len() && (#[trigger] s[i]).kind == Kind::Start && (
        #[trigger] s[j]).kind == Kind::Start ==> i == j
}

/// The store invariant: unique positions, bounded coordinates, mutually
/// consistent links, and a single start cell.
pub open spec fn cells_wf(s: Seq<Cell>) -> bool {
    positions_unique(s) && coords_bounded(s) && links_wf(s) && one_start(s)
}

/// `route` is walkable from `from`: every waypoint is a stored cell, the
/// first is adjacent to `from`, and consecutive waypoints are adjacent.
pub open spec fn route_connected(s: Seq<Cell>, from: Pos, route: Seq<Pos>) -> bool {
    &&& forall|j: int| 0 <= j < route.len() ==> has_pos(s, #[trigger] route[j])
    &&& route.len() > 0 ==> adjacent(from, route[0])
    &&& forall|j: int|
        0 <= j && j + 1 < route.len() ==> adjacent(#[trigger] route[j], route[j + 1])
}

/// `s` with the kind of the cell at `p` replaced by `k`.
pub open spec fn with_kind(s: Seq<Cell>, p: Pos, k: Kind) -> Seq<Cell> {
    s.update(idx_of(s, p), Cell { kind: k, ..cell_at(s, p) })
}

/// The kind a cell takes on when the engine steps onto it: a frontier cell
/// becomes explored, every other kind is left alone.
pub open spec fn visit_kind(k: Kind) -> Kind {
    if k == Kind::Unknown {
        Kind::Empty
    } else {
        k
    }
}

impl MazeView {
    /// The engine invariant: a well-formed store, and current position,
    /// checkpoint and pending route all referring to stored cells, the route
    /// forming a chain of adjacent waypoints starting beside the current
    /// position.
    pub open spec fn wf(self) -> bool {
        &&& cells_wf(self.cells)
        &&& has_pos(self.cells, self.pos)
        &&& has_pos(self.cells, self.last_checkpoint)
        &&& route_connected(self.cells, self.pos, self.path)
    }
}

/// Under `positions_unique`, the index of a stored cell's position is that
/// cell's index.
pub proof fn lemma_idx_of(s: Seq<Cell>, i: int)
    requires
        positions_unique(s),
        0 <= i < s.len(),
    ensures
        has_pos(s, s[i].pos),
        idx_of(s, s[i].pos) == i,
        cell_at(s, s[i].pos) == s[i],
{
    assert(has_pos(s, s[i].pos));
    let j = idx_of(s, s[i].pos);
    assert(0 <= j < s.len() && s[j].pos == s[i].pos);
}

/// Replacing one cell's kind moves no cell, changes no link, and changes no
/// kind but the one at `p`; it preserves the store invariant whenever the
/// new kind introduces no second start cell.
pub proof fn lemma_with_kind(s: Seq<Cell>, p: Pos, k: Kind)
    requires
        positions_unique(s),
        has_pos(s, p),
        k == Kind::Start ==> kind_at(s, p) == Kind::Start,
    ensures
        with_kind(s, p, k).len() == s.len(),
        forall|i: int|
            0 <= i < s.len() ==> (#[trigger] with_kind(s, p, k)[i]).pos == s[i].pos,
        forall|i: int, d: Direction|
            0 <= i < s.len() ==> #[trigger] nbr(with_kind(s, p, k)[i], d) == nbr(s[i], d),
        forall|q: Pos| #[trigger] has_pos(with_kind(s, p, k), q) <==> has_pos(s, q),
        forall|q: Pos|
            has_pos(s, q) ==> #[trigger] idx_of(with_kind(s, p, k), q) == idx_of(s, q),
        forall|q: Pos|
            has_pos(s, q) && q != p ==> #[trigger] kind_at(with_kind(s, p, k), q) == kind_at(
                s,
                q,
            ),
        kind_at(with_kind(s, p, k), p) == k,
        forall|q: Pos, d: Direction|
            has_pos(s, q) ==> #[trigger] nbr(cell_at(with_kind(s, p, k), q), d) == nbr(
                cell_at(s, q),
                d,
            ),
        positions_unique(with_kind(s, p, k)),
        coords_bounded(s) ==> coords_bounded(with_kind(s, p, k)),
        links_wf(s) ==> links_wf(with_kind(s, p, k)),
        one_start(s) && kind_at(s, p) != Kind::Start && k != Kind::Start ==> one_start(
            with_kind(s, p, k),
        ),
        one_start(s) && k == Kind::Start ==> one_start(with_kind(s, p, k)),
{
    let s2 = with_kind(s, p, k);
    let pi = idx_of(s, p);
    assert(0 <= pi < s.len() && s[pi].pos == p);
    assert forall|q: Pos| has_pos(s2, q) implies has_pos(s, q) by {
        let i = choose|i: int| 0 <= i < s2.len() && s2[i].pos == q;
        assert(s[i].pos == q);
    }
    assert forall|q: Pos| has_pos(s, q) implies has_pos(s2, q) by {
        let i = idx_of(s, q);
        assert(s2[i].pos == q);
    }
    assert forall|q: Pos| has_pos(s, q) implies idx_of(s2, q) == idx_of(s, q) by {
        let i2 = idx_of(s2, q);
        assert(0 <= i2 < s2.len() && s2[i2].pos == q);
        assert(s[i2].pos == q);
        assert(s[idx_of(s, q)].pos == q);
    }
    assert(links_wf(s) ==> links_wf(s2)) by {
        if links_wf(s) {
            assert forall|i: int, d: Direction| 0 <= i < s2.len() implies #[trigger] link_ok(
                s2,
                s2[i],
                d,
            ) by {
                assert(link_ok(s, s[i], d));
                match nbr(s[i], d) {
                    None => {},
                    Some(q) => {
                        assert(nbr(s2[i], d) == Some(q));
                        assert(cell_at(s2, q).pos == cell_at(s, q).pos);
                        assert(nbr(cell_at(s2, q), d.spec_back()) == nbr(
                            cell_at(s, q),
                            d.spec_back(),
                        ));
                        assert(s2[i].pos == s[i].pos);
                    },
                }
            }
        }
    }
    if one_start(s) && (k == Kind::Start || kind_at(s, p) != Kind::Start) {
        let si = choose|i: int| 0 <= i < s.len() && s[i].kind == Kind::Start;
        if k == Kind::Start {
            assert(s2[pi].kind == Kind::Start);
        } else {
            assert(si != pi);
            assert(s2[si].kind == Kind::Start);
        }
    }
}

/// One stored grid cell per discovered position, with the engine's current
/// heading, position, last checkpoint and pending route.
pub struct Maze {
    pub(crate) dir: Direction,
    pub(crate) pos: Pos,
    pub(crate) last_checkpoint: Pos,
    pub(crate) cells: Vec<Cell>,
    pub(crate) path: Vec<Pos>,
}

impl View for Maze {
    type V = MazeView;

    closed spec fn view(&self) -> MazeView {
        MazeView {
            dir: self.dir,
            pos: self.pos,
            last_checkpoint: self.last_checkpoint,
            cells: self.cells@,
            path: self.path@,
        }
    }
}

/// The view is exactly the tuple of the fields; stated once for the sibling
/// modules, whose executable code reads the fields directly.
pub(crate) proof fn view_fields(m: &Maze)
    ensures
        m@.dir == m.dir,
        m@.pos == m.pos,
        m@.last_checkpoint == m.last_checkpoint,
        m@.cells == m.cells@,
        m@.path == m.path@,
{
}

impl Maze {
    /// A fresh engine: one start cell at the origin, heading up, with the
    /// origin as checkpoint and no pending route.
    pub fn new() -> (r: Maze)
        ensures
            r@.wf(),
            r@.dir == Direction::Up,
            r@.pos == (Pos { x: 0, y: 0 }),
            r@.last_checkpoint == (Pos { x: 0, y: 0 }),
            r@.path == Seq::<Pos>::empty(),
            r@.cells.len() == 1,
            r@.cells[0] == (Cell {
                pos: Pos { x: 0, y: 0 },
                kind: Kind::Start,
                up: None,
                down: None,
                left: None,
                right: None,
            }),
    {
        let origin = Pos { x: 0, y: 0 };
        let mut cells: Vec<Cell> = Vec::new();
        cells.push(Cell::new(origin, Kind::Start));
        let r = Maze { dir: Direction::Up, pos: origin, last_checkpoint: origin, cells, path: Vec::new() };
        proof {
            assert(r@.cells.len() == 1);
            assert(has_pos(r@.cells, origin)) by {
                assert(r@.cells[0].pos == origin);
            }
            assert(r@.path.len() == 0);
        }
        r
    }

    /// The index of the stored cell at `p`, if any.
    pub(crate) fn cell_index(&self, p: Pos) -> (r: Option<usize>)
        ensures
            match r {
                Some(i) => i < self@.cells.len() && self@.cells[i as int].pos == p,
                None => !has_pos(self@.cells, p),
            },
    {
        let n = self.cells.len();
        let mut i: usize = 0;
        while i < n
            invariant
                i <= n,
                n == self@.cells.len(),
                forall|j: int| 0 <= j < i ==> (#[trigger] self@.cells[j]).pos != p,
            decreases n - i,
        {
            if self.cells[i].pos == p {
                return Some(i);
            }
            i += 1;
        }
        None
    }

    /// Sets the kind of the current cell to `k`, unless the current cell is
    /// the start cell, whose kind is never reassigned. Nothing else changes.
    fn set_kind_current(&mut self, k: Kind)
        requires
            old(self)@.wf(),
            k != Kind::Start,
        ensures
            final(self)@.wf(),
            final(self)@.cells == with_kind(
                old(self)@.cells,
                old(self)@.pos,
                if kind_at(old(self)@.cells, old(self)@.pos) == Kind::Start {
                    Kind::Start
                } else {
                    k
                },
            ),
            final(self)@.dir == old(self)@.dir,
            final(self)@.pos == old(self)@.pos,
            final(self)@.last_checkpoint == old(self)@.last_checkpoint,
            final(self)@.path == old(self)@.path,
    {
        let ghost s = self@.cells;
        let ghost p = self@.pos;
        let i = match self.cell_index(self.pos) {
            Some(i) => i,
            None => {
                proof {
                    assert(false);
                }
                0
            },
        };
        proof {
            lemma_idx_of(s, i as int);
        }
        let mut c = self.cells[i];
        let applied = if c.kind == Kind::Start {
            Kind::Start
        } else {
            k
        };
        proof {
            lemma_with_kind(s, p, applied);
        }
        if c.kind != Kind::Start {
            c.kind = k;
            self.cells[i] = c;
        } else {
            proof {
                assert(with_kind(s, p, applied) =~= s);
            }
        }
        proof {
            let v = final(self)@;
            assert(v.cells == with_kind(s, p, applied));
            assert(has_pos(v.cells, v.pos));
            assert(has_pos(v.cells, v.last_checkpoint));
            assert(route_connected(v.cells, v.pos, v.path)) by {
                assert(forall|j: int|
                    0 <= j < v.path.len() ==> has_pos(v.cells, #[trigger] v.path[j]));
            }
        }
    }

    /// Classifies the current cell as a checkpoint and records its position
    /// as the fallback for `lack_of_progress`. The start cell keeps its
    /// kind, but its position is still recorded.
    pub fn add_checkpoint(&mut self)
        requires
            old(self)@.wf(),
        ensures
            final(self)@.wf(),
            final(self)@.cells == with_kind(
                old(self)@.cells,
                old(self)@.pos,
                if kind_at(old(self)@.cells, old(self)@.pos) == Kind::Start {
                    Kind::Start
                } else {
                    Kind::Checkpoint
                },
            ),
            final(self)@.last_checkpoint == old(self)@.pos,
            final(self)@.dir == old(self)@.dir,
            final(self)@.pos == old(self)@.pos,
            final(self)@.path == old(self)@.path,
    {
        self.set_kind_current(Kind::Checkpoint);
        self.last_checkpoint = self.pos;
    }

    /// Classifies the current cell as a victim cell (start excepted).
    pub fn add_victim(&mut self)
        requires
            old(self)@.wf(),
        ensures
            final(self)@.wf(),
            final(self)@.cells == with_kind(
                old(self)@.cells,
                old(self)@.pos,
                if kind_at(old(self)@.cells, old(self)@.pos) == Kind::Start {
                    Kind::Start
                } else {
                    Kind::Victim
                },
            ),
            final(self)@.dir == old(self)@.dir,
            final(self)@.pos == old(self)@.pos,
            final(self)@.last_checkpoint == old(self)@.last_checkpoint,
            final(self)@.path == old(self)@.path,
    {
        self.set_kind_current(Kind::Victim);
    }

    /// Classifies the current cell as a ramp cell (start excepted).
    pub fn add_ramp(&mut self)
        requires
            old(self)@.wf(),
        ensures
            final(self)@.wf(),
            final(self)@.cells == with_kind(
                old(self)@.cells,
                old(self)@.pos,
                if kind_at(old(self)@.cells, old(self)@.pos) == Kind::Start {
                    Kind::Start
                } else {
                    Kind::Ramp
                },
            ),
            final(self)@.dir == old(self)@.dir,
            final(self)@.pos == old(self)@.pos,
            final(self)@.last_checkpoint == old(self)@.last_checkpoint,
            final(self)@.path == old(self)@.path,
    {
        self.set_kind_current(Kind::Ramp);
    }

    /// Classifies the current cell as a blue cell (start excepted).
    pub fn add_blue(&mut self)
        requires
            old(self)@.wf(),
        ensures
            final(self)@.wf(),
            final(self)@.cells == with_kind(
                old(self)@.cells,
                old(self)@.pos,
                if kind_at(old(self)@.cells, old(self)@.pos) == Kind::Start {
                    Kind::Start
                } else {
                    Kind::Blue
                },
            ),
            final(self)@.dir == old(self)@.dir,
            final(self)@.pos == old(self)@.pos,
            final(self)@.last_checkpoint == old(self)@.last_checkpoint,
            final(self)@.path == old(self)@.path,
    {
        self.set_kind_current(Kind::Blue);
    }

    /// Classifies the current cell as hazardous and retreats one step: the
    /// cell the engine stands on is forced to `Black` (start excepted), the
    /// position moves one step opposite to the current heading, and any
    /// pending route, which the hazard may have crossed, is discarded.
    ///
    /// Requires a stored cell one step behind the current position, which is
    /// where the retreat ends: the engine's position always names a stored
    /// cell.
    pub fn add_black(&mut self)
        requires
            old(self)@.wf(),
            exists|q: Pos|
                is_step(old(self)@.pos, old(self)@.dir.spec_back(), q) && #[trigger] has_pos(
                    old(self)@.cells,
                    q,
                ),
        ensures
            final(self)@.wf(),
            is_step(old(self)@.pos, old(self)@.dir.spec_back(), final(self)@.pos),
            final(self)@.cells == with_kind(
                old(self)@.cells,
                old(self)@.pos,
                if kind_at(old(self)@.cells, old(self)@.pos) == Kind::Start {
                    Kind::Start
                } else {
                    Kind::Black
                },
            ),
            final(self)@.dir == old(self)@.dir,
            final(self)@.last_checkpoint == old(self)@.last_checkpoint,
            final(self)@.path == Seq::<Pos>::empty(),
    {
        let ghost q = choose|q: Pos|
            is_step(old(self)@.pos, old(self)@.dir.spec_back(), q) && has_pos(
                old(self)@.cells,
                q,
            );
        self.set_kind_current(Kind::Black);
        let back = match self.dir {
            Direction::Up => Pos { x: self.pos.x, y: self.pos.y + 1 },
            Direction::Down => Pos { x: self.pos.x, y: self.pos.y - 1 },
            Direction::Left => Pos { x: self.pos.x + 1, y: self.pos.y },
            Direction::Right => Pos { x: self.pos.x - 1, y: self.pos.y },
        };
        proof {
            assert(back == q);
        }
        self.pos = back;
        self.path.clear();
        proof {
            let s = old(self)@.cells;
            let p = old(self)@.pos;
            let applied = if kind_at(s, p) == Kind::Start {
                Kind::Start
            } else {
                Kind::Black
            };
            lemma_with_kind(s, p, applied);
            assert(self@.cells == with_kind(s, p, applied));
            assert(has_pos(self@.cells, self@.pos));
            assert(has_pos(self@.cells, self@.last_checkpoint));
            assert(self@.path.len() == 0);
        }
    }

    /// Reverts the logical position to the last recorded checkpoint, leaving
    /// heading and map contents untouched; any pending route, planned from
    /// the abandoned position, is discarded.
    pub fn lack_of_progress(&mut self)
        requires
            old(self)@.wf(),
        ensures
            final(self)@.wf(),
            final(self)@.pos == old(self)@.last_checkpoint,
            final(self)@.dir == old(self)@.dir,
            final(self)@.cells == old(self)@.cells,
            final(self)@.last_checkpoint == old(self)@.last_checkpoint,
            final(self)@.path == Seq::<Pos>::empty(),
    {
        self.pos = self.last_checkpoint;
        self.path.clear();
    }

    /// The heading that one step from the current position to the adjacent
    /// position `pos` takes.
    pub fn coordinate_to_direction(&self, pos: Pos) -> (r: Direction)
        requires
            adjacent(self@.pos, pos),
        ensures
            r == direction_between(self@.pos, pos),
            is_step(self@.pos, r, pos),
    {
        let px = self.pos.x as i64;
        let py = self.pos.y as i64;
        let qx = pos.x as i64;
        let qy = pos.y as i64;
        if qx == px && qy == py - 1 {
            Direction::Up
        } else if qx == px && qy == py + 1 {
            Direction::Down
        } else if qx == px - 1 && qy == py {
            Direction::Left
        } else {
            Direction::Right
        }
    }
}

/// `s` with the cell at `p` given a link to `q` in direction `d`, whatever
/// link was there before.
pub open spec fn with_link(s: Seq<Cell>, p: Pos, d: Direction, q: Pos) -> Seq<Cell> {
    s.update(idx_of(s, p), with_nbr(cell_at(s, p), d, q))
}

/// Overwriting one link moves no cell and changes no kind; every other link
/// is untouched.
pub proof fn lemma_with_link(s: Seq<Cell>, p: Pos, d: Direction, q: Pos)
    requires
        positions_unique(s),
        has_pos(s, p),
    ensures
        with_link(s, p, d, q).len() == s.len(),
        forall|i: int|
            0 <= i < s.len() ==> (#[trigger] with_link(s, p, d, q)[i]).pos == s[i].pos,
        forall|i: int|
            0 <= i < s.len() ==> (#[trigger] with_link(s, p, d, q)[i]).kind == s[i].kind,
        forall|r: Pos| #[trigger] has_pos(with_link(s, p, d, q), r) <==> has_pos(s, r),
        forall|r: Pos|
            has_pos(s, r) ==> #[trigger] idx_of(with_link(s, p, d, q), r) == idx_of(s, r),
        forall|r: Pos|
            has_pos(s, r) ==> #[trigger] kind_at(with_link(s, p, d, q), r) == kind_at(s, r),
        forall|r: Pos, d2: Direction|
            has_pos(s, r) ==> #[trigger] nbr(cell_at(with_link(s, p, d, q), r), d2) == (
            if r == p && d2 == d {
                Some(q)
            } else {
                nbr(cell_at(s, r), d2)
            }),
        positions_unique(with_link(s, p, d, q)),
        coords_bounded(s) ==> coords_bounded(with_link(s, p, d, q)),
        one_start(s) ==> one_start(with_link(s, p, d, q)),
{
    let s2 = with_link(s, p, d, q);
    let pi = idx_of(s, p);
    assert(0 <= pi < s.len() && s[pi].pos == p);
    assert forall|r: Pos| has_pos(s2, r) implies has_pos(s, r) by {
        let i = choose|i: int| 0 <= i < s2.len() && s2[i].pos == r;
        assert(s[i].pos == r);
    }
    assert forall|r: Pos| has_pos(s, r) implies has_pos(s2, r) by {
        let i = idx_of(s, r);
        assert(s2[i].pos == r);
    }
    assert forall|r: Pos| has_pos(s, r) implies idx_of(s2, r) == idx_of(s, r) by {
        let i2 = idx_of(s2, r);
        assert(0 <= i2 < s2.len() && s2[i2].pos == r);
        assert(s[i2].pos == r);
        assert(s[idx_of(s, r)].pos == r);
    }
    if one_start(s) {
        let si = choose|i: int| 0 <= i < s.len() && s[i].kind == Kind::Start;
        assert(s2[si].kind == Kind::Start);
    }
}

/// Appending a cell at a fresh position disturbs nothing already stored.
pub proof fn lemma_push_cell(s: Seq<Cell>, c: Cell)
    requires
        positions_unique(s),
        !has_pos(s, c.pos),
    ensures
        positions_unique(s.push(c)),
        forall|r: Pos| #[trigger] has_pos(s.push(c), r) <==> (has_pos(s, r) || r == c.pos),
        forall|r: Pos|
            has_pos(s, r) ==> #[trigger] idx_of(s.push(c), r) == idx_of(s, r) && cell_at(
                s.push(c),
                r,
            ) == cell_at(s, r),
        idx_of(s.push(c), c.pos) == s.len(),
        cell_at(s.push(c), c.pos) == c,
        one_start(s) && c.kind != Kind::Start ==> one_start(s.push(c)),
{
    let s2 = s.push(c);
    let n = s.len() as int;
    assert(s2[n] == c);
    assert(has_pos(s2, c.pos));
    assert forall|r: Pos| has_pos(s2, r) implies (has_pos(s, r) || r == c.pos) by {
        let i = choose|i: int| 0 <= i < s2.len() && s2[i].pos == r;
        if i < n {
            assert(s[i].pos == r);
        }
    }
    assert forall|i: int, j: int|
        0 <= i < s2.len() && 0 <= j < s2.len() && s2[i].pos == s2[j].pos implies i == j by {
        if i < n && j < n {
            assert(s[i].pos == s[j].pos);
        } else if i < n && j == n {
            assert(has_pos(s, c.pos));
        } else if i == n && j < n {
            assert(has_pos(s, c.pos));
        }
    }
    assert forall|r: Pos| has_pos(s, r) implies idx_of(s2, r) == idx_of(s, r) && cell_at(
        s2,
        r,
    ) == cell_at(s, r) by {
        let i = idx_of(s, r);
        assert(0 <= i < s.len() && s[i].pos == r);
        assert(s2[i].pos == r);
        let i2 = idx_of(s2, r);
        assert(0 <= i2 < s2.len() && s2[i2].pos == r);
        assert(i2 != n);
        assert(s[i2].pos == r);
    }
    assert(s2[idx_of(s2, c.pos)].pos == c.pos);
    assert(idx_of(s2, c.pos) == n);
    if one_start(s) && c.kind != Kind::Start {
        let si = choose|i: int| 0 <= i < s.len() && s[i].kind == Kind::Start;
        assert(s2[si].kind == Kind::Start);
        assert forall|i: int, j: int|
            0 <= i < s2.len() && 0 <= j < s2.len() && s2[i].kind == Kind::Start && s2[j].kind
                == Kind::Start implies i == j by {
            assert(i != n && j != n);
            assert(s[i].kind == Kind::Start && s[j].kind == Kind::Start);
        }
    }
}

/// The column, before any normalization, one step in `d` from the current
/// position.
pub open spec fn step_x(v: MazeView, d: Direction) -> int {
    v.pos.x + dir_dx(d)
}

/// The row, before any normalization, one step in `d` from the current
/// position.
pub open spec fn step_y(v: MazeView, d: Direction) -> int {
    v.pos.y + dir_dy(d)
}

/// How far the normalizer shifts the store in x before inserting one step in
/// `d`: one exactly when the target column would be negative.
pub open spec fn add_shift_x(v: MazeView, d: Direction) -> int {
    if step_x(v, d) < 0 {
        1
    } else {
        0
    }
}

/// The y counterpart of `add_shift_x`.
pub open spec fn add_shift_y(v: MazeView, d: Direction) -> int {
    if step_y(v, d) < 0 {
        1
    } else {
        0
    }
}

/// The position, after any normalization, of the neighbor cell that
/// `add_cell(d)` reports.
pub open spec fn add_target(v: MazeView, d: Direction) -> Pos {
    Pos {
        x: (step_x(v, d) + add_shift_x(v, d)) as i32,
        y: (step_y(v, d) + add_shift_y(v, d)) as i32,
    }
}

/// Every cell of a well-formed, size-bounded store can be translated one
/// step without leaving `i32`.
pub proof fn lemma_cells_shiftable(s: Seq<Cell>, dx: int, dy: int)
    requires
        cells_wf(s),
        s.len() <= MAX_CELLS,
        0 <= dx <= 1,
        0 <= dy <= 1,
    ensures
        cells_shift_ok(s, dx, dy),
{
    assert forall|i: int| 0 <= i < s.len() implies cell_shift_ok(#[trigger] s[i], dx, dy) by {
        assert(link_ok(s, s[i], Direction::Up));
        assert(link_ok(s, s[i], Direction::Down));
        assert(link_ok(s, s[i], Direction::Left));
        assert(link_ok(s, s[i], Direction::Right));
        assert forall|q: Pos| has_pos(s, q) implies pos_shift_ok(q, dx, dy) by {
            let j = idx_of(s, q);
            assert(0 <= j < s.len() && s[j].pos == q);
        }
    }
}

/// Translation by an in-range vector preserves orthogonal adjacency.
pub proof fn lemma_shift_preserves_adjacent(p: Pos, q: Pos, dx: int, dy: int)
    requires
        pos_shift_ok(p, dx, dy),
        pos_shift_ok(q, dx, dy),
    ensures
        adjacent(p, q) <==> adjacent(shift_pos(p, dx, dy), shift_pos(q, dx, dy)),
{
    lemma_shift_preserves_step(p, q, Direction::Up, dx, dy);
    lemma_shift_preserves_step(p, q, Direction::Down, dx, dy);
    lemma_shift_preserves_step(p, q, Direction::Left, dx, dy);
    lemma_shift_preserves_step(p, q, Direction::Right, dx, dy);
}

/// Translating by zero changes nothing.
pub proof fn lemma_shift_zero(s: Seq<Cell>, r: Seq<Pos>)
    ensures
        shift_cells(s, 0, 0) == s,
        shift_route(r, 0, 0) == r,
        forall|p: Pos| #[trigger] shift_pos(p, 0, 0) == p,
{
    assert forall|p: Pos| #[trigger] shift_pos(p, 0, 0) == p by {}
    assert forall|i: int| 0 <= i < s.len() implies #[trigger] shift_cells(s, 0, 0)[i]
        == s[i] by {
        assert(shift_opt(s[i].up, 0, 0) == s[i].up);
        assert(shift_opt(s[i].down, 0, 0) == s[i].down);
        assert(shift_opt(s[i].left, 0, 0) == s[i].left);
        assert(shift_opt(s[i].right, 0, 0) == s[i].right);
    }
    assert(shift_cells(s, 0, 0) =~= s);
    assert(shift_route(r, 0, 0) =~= r);
}

/// Translates an optional neighbor link by `(dx, dy)`.
fn shift_opt_exec(o: Option<Pos>, dx: i32, dy: i32) -> (r: Option<Pos>)
    requires
        opt_shift_ok(o, dx as int, dy as int),
    ensures
        r == shift_opt(o, dx as int, dy as int),
{
    match o {
        None => None,
        Some(q) => Some(Pos { x: q.x + dx, y: q.y + dy }),
    }
}

impl Maze {
    /// The index of the cell the engine stands on.
    pub(crate) fn index_of_current(&self) -> (r: usize)
        requires
            has_pos(self@.cells, self@.pos),
        ensures
            r < self@.cells.len(),
            self@.cells[r as int].pos == self@.pos,
    {
        match self.cell_index(self.pos) {
            Some(i) => i,
            None => {
                proof {
                    assert(false);
                }
                0
            },
        }
    }

    /// One run of the coordinate normalizer: translates every stored cell,
    /// the current position, the checkpoint and every pending waypoint by
    /// `(dx, dy)` in a single pass, so that all coordinates stay
    /// non-negative.
    fn shift_all(&mut self, dx: i32, dy: i32)
        requires
            old(self)@.wf(),
            0 <= dx <= 1,
            0 <= dy <= 1,
            old(self)@.cells.len() <= MAX_CELLS,
        ensures
            final(self)@.cells == shift_cells(old(self)@.cells, dx as int, dy as int),
            final(self)@.pos == shift_pos(old(self)@.pos, dx as int, dy as int),
            final(self)@.last_checkpoint == shift_pos(
                old(self)@.last_checkpoint,
                dx as int,
                dy as int,
            ),
            final(self)@.path == shift_route(old(self)@.path, dx as int, dy as int),
            final(self)@.dir == old(self)@.dir,
    {
        let ghost v0 = self@;
        proof {
            lemma_cells_shiftable(v0.cells, dx as int, dy as int);
            assert forall|q: Pos| has_pos(v0.cells, q) implies pos_shift_ok(
                q,
                dx as int,
                dy as int,
            ) by {
                let j = idx_of(v0.cells, q);
                assert(0 <= j < v0.cells.len() && v0.cells[j].pos == q);
            }
            assert(route_shift_ok(v0.path, dx as int, dy as int));
        }
        let n = self.cells.len();
        let mut i: usize = 0;
        while i < n
            invariant
                i <= n,
                self@.cells.len() == n,
                n == v0.cells.len(),
                n <= MAX_CELLS,
                0 <= dx <= 1,
                0 <= dy <= 1,
                cells_shift_ok(v0.cells, dx as int, dy as int),
                forall|j: int|
                    0 <= j < i ==> #[trigger] self@.cells[j] == shift_cell(
                        v0.cells[j],
                        dx as int,
                        dy as int,
                    ),
                forall|j: int| i <= j < n ==> #[trigger] self@.cells[j] == v0.cells[j],
                self@.pos == v0.pos,
                self@.last_checkpoint == v0.last_checkpoint,
                self@.path == v0.path,
                self@.dir == v0.dir,
            decreases n - i,
        {
            let c = self.cells[i];
            proof {
                assert(c == v0.cells[i as int]);
                assert(cell_shift_ok(c, dx as int, dy as int));
            }
            let nc = Cell {
                pos: Pos { x: c.pos.x + dx, y: c.pos.y + dy },
                kind: c.kind,
                up: shift_opt_exec(c.up, dx, dy),
                down: shift_opt_exec(c.down, dx, dy),
                left: shift_opt_exec(c.left, dx, dy),
                right: shift_opt_exec(c.right, dx, dy),
            };
            proof {
                assert(nc == shift_cell(v0.cells[i as int], dx as int, dy as int));
            }
            self.cells[i] = nc;
            i += 1;
        }
        proof {
            assert(self@.cells =~= shift_cells(v0.cells, dx as int, dy as int));
            assert(pos_shift_ok(v0.pos, dx as int, dy as int));
            assert(pos_shift_ok(v0.last_checkpoint, dx as int, dy as int));
        }
        self.pos = Pos { x: self.pos.x + dx, y: self.pos.y + dy };
        self.last_checkpoint = Pos {
            x: self.last_checkpoint.x + dx,
            y: self.last_checkpoint.y + dy,
        };
        let m = self.path.len();
        let mut j: usize = 0;
        while j < m
            invariant
                j <= m,
                self@.path.len() == m,
                m == v0.path.len(),
                0 <= dx <= 1,
                0 <= dy <= 1,
                route_shift_ok(v0.path, dx as int, dy as int),
                forall|k: int|
                    0 <= k < j ==> #[trigger] self@.path[k] == shift_pos(
                        v0.path[k],
                        dx as int,
                        dy as int,
                    ),
                forall|k: int| j <= k < m ==> #[trigger] self@.path[k] == v0.path[k],
                self@.cells == shift_cells(v0.cells, dx as int, dy as int),
                self@.pos == shift_pos(v0.pos, dx as int, dy as int),
                self@.last_checkpoint == shift_pos(v0.last_checkpoint, dx as int, dy as int),
                self@.dir == v0.dir,
            decreases m - j,
        {
            let p = self.path[j];
            proof {
                assert(p == v0.path[j as int]);
                assert(pos_shift_ok(p, dx as int, dy as int));
            }
            self.path[j] = Pos { x: p.x + dx, y: p.y + dy };
            j += 1;
        }
        proof {
            assert(self@.path =~= shift_route(v0.path, dx as int, dy as int));
        }
    }

    /// Links the stored cell at index `ti`, one step in `direction` from the
    /// current position, bidirectionally to the current cell; its back link
    /// must still be free, so the forward link is free too by consistency.
    #[verifier::rlimit(60)]
    fn link_existing(&mut self, direction: Direction, ti: usize)
        requires
            old(self)@.wf(),
            ti < old(self)@.cells.len(),
            is_step(old(self)@.pos, direction, old(self)@.cells[ti as int].pos),
            nbr(old(self)@.cells[ti as int], direction.spec_back()) is None,
        ensures
            final(self)@.wf(),
            final(self)@.cells == with_link(
                with_link(
                    old(self)@.cells,
                    old(self)@.pos,
                    direction,
                    old(self)@.cells[ti as int].pos,
                ),
                old(self)@.cells[ti as int].pos,
                direction.spec_back(),
                old(self)@.pos,
            ),
            final(self)@.dir == old(self)@.dir,
            final(self)@.pos == old(self)@.pos,
            final(self)@.last_checkpoint == old(self)@.last_checkpoint,
            final(self)@.path == old(self)@.path,
    {
        let ghost v0 = self@;
        let ghost s = v0.cells;
        let ghost p = v0.pos;
        let t = self.cells[ti].pos;
        let back = direction.back();
        let pi = self.index_of_current();
        proof {
            lemma_idx_of(s, pi as int);
            lemma_idx_of(s, ti as int);
            assert(pi != ti);
            // the current cell's forward link is free too: were it taken,
            // consistency would already give the target its back link
            assert(link_ok(s, s[pi as int], direction));
            if nbr(s[pi as int], direction) is Some {
                let r = nbr(s[pi as int], direction)->0;
                assert(is_step(p, direction, r));
                assert(r == t);
                assert(nbr(cell_at(s, t), back) == Some(p));
                assert(false);
            }
            lemma_with_link(s, p, direction, t);
        }
        let mut pc = self.cells[pi];
        pc.add_neighbor(direction, t);
        self.cells[pi] = pc;
        let mut tc = self.cells[ti];
        tc.add_neighbor(back, self.pos);
        self.cells[ti] = tc;
        proof {
            let s1 = with_link(s, p, direction, t);
            lemma_with_link(s1, t, direction.spec_back(), p);
            let s2 = with_link(s1, t, direction.spec_back(), p);
            assert(idx_of(s1, t) == ti as int);
            assert(self@.cells == s2);
            lemma_step_flip(p, direction, t);
            assert forall|i: int, d2: Direction| 0 <= i < s2.len() implies #[trigger] link_ok(
                s2,
                s2[i],
                d2,
            ) by {
                assert(link_ok(s, s[i], d2));
                assert(s2[i].pos == s[i].pos);
                if i == pi as int && d2 == direction {
                    assert(nbr(s2[i], d2) == Some(t));
                    assert(nbr(cell_at(s2, t), direction.spec_back()) == Some(p));
                } else if i == ti as int && d2 == direction.spec_back() {
                    assert(nbr(s2[i], d2) == Some(p));
                    assert(is_step(t, direction.spec_back(), p));
                    assert(nbr(cell_at(s2, p), direction) == Some(t));
                } else {
                    assert(nbr(s2[i], d2) == nbr(s[i], d2));
                    match nbr(s[i], d2) {
                        None => {},
                        Some(q) => {
                            assert(has_pos(s, q));
                            assert(has_pos(s2, q));
                            if q == p && d2.spec_back() == direction {
                                assert(nbr(cell_at(s, p), direction) is None);
                                assert(false);
                            }
                            if q == t && d2.spec_back() == direction.spec_back() {
                                assert(nbr(cell_at(s, t), back) is None);
                                assert(false);
                            }
                            assert(nbr(cell_at(s2, q), d2.spec_back()) == nbr(
                                cell_at(s, q),
                                d2.spec_back(),
                            ));
                        },
                    }
                }
            }
            assert(links_wf(s2));
            assert forall|i: int|
                0 <= i < s2.len() implies 0 <= (#[trigger] s2[i]).pos.x <= s2.len() && 0 <= s2[
            i].pos.y <= s2.len() by {
                assert(s2[i].pos == s[i].pos);
            }
            assert(route_connected(s2, self@.pos, self@.path)) by {
                assert(forall|j: int|
                    0 <= j < self@.path.len() ==> has_pos(s2, #[trigger] self@.path[j]));
            }
        }
    }

    /// Inserts a fresh `Unknown` cell at `t`, one step in `direction` from
    /// the current position, and links it bidirectionally to the current
    /// cell.
    fn insert_new(&mut self, direction: Direction, t: Pos)
        requires
            positions_unique(old(self)@.cells),
            links_wf(old(self)@.cells),
            one_start(old(self)@.cells),
            forall|i: int|
                0 <= i < old(self)@.cells.len() ==> 0 <= (
                #[trigger] old(self)@.cells[i]).pos.x <= old(self)@.cells.len() + 1 && 0 <= old(
                    self,
                )@.cells[i].pos.y <= old(self)@.cells.len() + 1,
            has_pos(old(self)@.cells, old(self)@.pos),
            has_pos(old(self)@.cells, old(self)@.last_checkpoint),
            route_connected(old(self)@.cells, old(self)@.pos, old(self)@.path),
            !has_pos(old(self)@.cells, t),
            is_step(old(self)@.pos, direction, t),
            0 <= t.x <= old(self)@.cells.len() + 1,
            0 <= t.y <= old(self)@.cells.len() + 1,
        ensures
            final(self)@.wf(),
            final(self)@.cells == with_link(
                old(self)@.cells,
                old(self)@.pos,
                direction,
                t,
            ).push(
                with_nbr(
                    Cell { pos: t, kind: Kind::Unknown, up: None, down: None, left: None, right: None },
                    direction.spec_back(),
                    old(self)@.pos,
                ),
            ),
            final(self)@.dir == old(self)@.dir,
            final(self)@.pos == old(self)@.pos,
            final(self)@.last_checkpoint == old(self)@.last_checkpoint,
            final(self)@.path == old(self)@.path,
    {
        let ghost s = self@.cells;
        let ghost p = self@.pos;
        let pi = self.index_of_current();
        proof {
            lemma_idx_of(s, pi as int);
            assert(link_ok(s, s[pi as int], direction));
            if nbr(s[pi as int], direction) is Some {
                let r = nbr(s[pi as int], direction)->0;
                assert(is_step(p, direction, r));
                assert(r == t);
                assert(false);
            }
            lemma_with_link(s, p, direction, t);
        }
        let mut pc = self.cells[pi];
        pc.add_neighbor(direction, t);
        self.cells[pi] = pc;
        let mut nc = Cell::new(t, Kind::Unknown);
        nc.add_neighbor(direction.back(), self.pos);
        self.cells.push(nc);
        proof {
            let s1 = with_link(s, p, direction, t);
            let s2 = self@.cells;
            assert(s2 == s1.push(nc));
            assert(!has_pos(s1, t));
            lemma_push_cell(s1, nc);
            let n = s.len() as int;
            assert forall|i: int, d2: Direction| 0 <= i < s2.len() implies #[trigger] link_ok(
                s2,
                s2[i],
                d2,
            ) by {
                lemma_step_flip(p, direction, t);
                if i == n {
                    assert(s2[i] == nc);
                    if nbr(nc, d2) is Some {
                        assert(d2 == direction.spec_back());
                        assert(nbr(nc, d2) == Some(p));
                        assert(has_pos(s2, p));
                        assert(cell_at(s2, p) == cell_at(s1, p));
                        assert(nbr(cell_at(s1, p), direction) == Some(t));
                        assert(d2.spec_back() == direction);
                        assert(nc.pos == t);
                    }
                } else {
                    assert(s2[i] == s1[i]);
                    assert(link_ok(s, s[i], d2));
                    if i == pi as int && d2 == direction {
                        assert(nbr(s2[i], d2) == Some(t));
                        assert(has_pos(s2, t));
                        assert(cell_at(s2, t) == nc);
                        assert(nbr(nc, direction.spec_back()) == Some(p));
                        assert(s2[i].pos == p);
                    } else {
                        assert(nbr(s1[i], d2) == nbr(s[i], d2));
                        match nbr(s[i], d2) {
                            None => {},
                            Some(q) => {
                                assert(has_pos(s, q));
                                assert(has_pos(s2, q));
                                assert(q != t);
                                assert(cell_at(s2, q) == cell_at(s1, q));
                                if q == p && d2.spec_back() == direction {
                                    assert(nbr(cell_at(s, p), direction) is None);
                                    assert(nbr(cell_at(s, q), d2.spec_back()) == Some(
                                        s[i].pos,
                                    ));
                                    assert(false);
                                }
                                assert(nbr(cell_at(s1, q), d2.spec_back()) == nbr(
                                    cell_at(s, q),
                                    d2.spec_back(),
                                ));
                                assert(s1[i].pos == s[i].pos);
                            },
                        }
                    }
                }
            }
            assert(links_wf(s2));
            assert forall|i: int|
                0 <= i < s2.len() implies 0 <= (#[trigger] s2[i]).pos.x <= s2.len() && 0 <= s2[
                i].pos.y <= s2.len() by {
                if i < n {
                    assert(s2[i].pos == s[i].pos);
                } else {
                    assert(s2[i].pos == t);
                }
            }
            assert(coords_bounded(s2));
            assert(has_pos(s2, self@.pos));
            assert(has_pos(s2, self@.last_checkpoint));
            assert(route_connected(s2, self@.pos, self@.path)) by {
                assert(forall|j: int|
                    0 <= j < self@.path.len() ==> has_pos(s2, #[trigger] self@.path[j]));
            }
        }
    }

    /// Reports an open path one step in `direction` from the current
    /// position: makes sure a cell exists there (inserting a fresh `Unknown`
    /// cell if absent, normalizing coordinates first whenever the step would
    /// go negative) and links it bidirectionally to the current cell. If the
    /// neighbor already exists and is already linked, nothing changes.
    pub fn add_cell(&mut self, direction: Direction)
        requires
            old(self)@.wf(),
            old(self)@.cells.len() < MAX_CELLS,
        ensures
            final(self)@.wf(),
            final(self)@.dir == old(self)@.dir,
            final(self)@.pos == shift_pos(
                old(self)@.pos,
                add_shift_x(old(self)@, direction),
                add_shift_y(old(self)@, direction),
            ),
            final(self)@.last_checkpoint == shift_pos(
                old(self)@.last_checkpoint,
                add_shift_x(old(self)@, direction),
                add_shift_y(old(self)@, direction),
            ),
            final(self)@.path == shift_route(
                old(self)@.path,
                add_shift_x(old(self)@, direction),
                add_shift_y(old(self)@, direction),
            ),
            ({
                let w = shift_cells(
                    old(self)@.cells,
                    add_shift_x(old(self)@, direction),
                    add_shift_y(old(self)@, direction),
                );
                let t = add_target(old(self)@, direction);
                let sp = final(self)@.pos;
                if has_pos(w, t) {
                    if nbr(cell_at(w, t), direction.spec_back()) is Some {
                        final(self)@.cells == w
                    } else {
                        final(self)@.cells == with_link(
                            with_link(w, sp, direction, t),
                            t,
                            direction.spec_back(),
                            sp,
                        )
                    }
                } else {
                    final(self)@.cells == with_link(w, sp, direction, t).push(
                        with_nbr(
                            Cell {
                                pos: t,
                                kind: Kind::Unknown,
                                up: None,
                                down: None,
                                left: None,
                                right: None,
                            },
                            direction.spec_back(),
                            sp,
                        ),
                    )
                }
            }),
            has_pos(final(self)@.cells, add_target(old(self)@, direction)),
            nbr(cell_at(final(self)@.cells, final(self)@.pos), direction) == Some(
                add_target(old(self)@, direction),
            ),
            nbr(
                cell_at(final(self)@.cells, add_target(old(self)@, direction)),
                direction.spec_back(),
            ) == Some(final(self)@.pos),
            kind_at(final(self)@.cells, add_target(old(self)@, direction)) == ({
                let w = shift_cells(
                    old(self)@.cells,
                    add_shift_x(old(self)@, direction),
                    add_shift_y(old(self)@, direction),
                );
                let t = add_target(old(self)@, direction);
                if has_pos(w, t) {
                    kind_at(w, t)
                } else {
                    Kind::Unknown
                }
            }),
    {
        let ghost v0 = self@;
        let ghost shx = add_shift_x(v0, direction);
        let ghost shy = add_shift_y(v0, direction);
        proof {
            let i = idx_of(v0.cells, v0.pos);
            assert(0 <= i < v0.cells.len() && v0.cells[i].pos == v0.pos);
        }
        let (tx, ty): (i32, i32) = match direction {
            Direction::Up => (self.pos.x, self.pos.y - 1),
            Direction::Down => (self.pos.x, self.pos.y + 1),
            Direction::Left => (self.pos.x - 1, self.pos.y),
            Direction::Right => (self.pos.x + 1, self.pos.y),
        };
        if tx >= 0 && ty >= 0 {
            proof {
                assert(shx == 0 && shy == 0);
                lemma_shift_zero(v0.cells, v0.path);
                assert(shift_pos(v0.pos, 0, 0) == v0.pos);
                assert(shift_pos(v0.last_checkpoint, 0, 0) == v0.last_checkpoint);
            }
            let t = Pos { x: tx, y: ty };
            proof {
                assert(t == add_target(v0, direction));
                assert(is_step(v0.pos, direction, t));
            }
            match self.cell_index(t) {
                Some(ti) => {
                    proof {
                        lemma_idx_of(v0.cells, ti as int);
                    }
                    let back = direction.back();
                    if self.cells[ti].neighbor(back).is_none() {
                        self.link_existing(direction, ti);
                    } else {
                        proof {
                            let s = v0.cells;
                            assert(link_ok(s, s[ti as int], back));
                            let r = nbr(s[ti as int], back)->0;
                            assert(is_step(t, back, r));
                            lemma_step_flip(v0.pos, direction, t);
                            assert(r == v0.pos);
                            assert(nbr(cell_at(s, v0.pos), direction) == Some(t));
                        }
                    }
                },
                None => {
                    proof {
                        assert(0 <= t.x <= v0.cells.len() + 1 && 0 <= t.y <= v0.cells.len()
                            + 1);
                    }
                    self.insert_new(direction, t);
                },
            }
        } else {
            let sx: i32 = if tx < 0 {
                1
            } else {
                0
            };
            let sy: i32 = if ty < 0 {
                1
            } else {
                0
            };
            proof {
                assert(!(tx < 0 && ty < 0));
                assert(sx as int == shx && sy as int == shy);
            }
            self.shift_all(sx, sy);
            let ghost w = shift_cells(v0.cells, shx, shy);
            proof {
                lemma_cells_shiftable(v0.cells, shx, shy);
                lemma_translation_preserves_structure(v0.cells, shx, shy);
                lemma_translation_preserves_links(v0.cells, shx, shy);
                assert forall|q: Pos| has_pos(v0.cells, q) implies pos_shift_ok(
                    q,
                    shx,
                    shy,
                ) by {
                    let j = idx_of(v0.cells, q);
                    assert(0 <= j < v0.cells.len() && v0.cells[j].pos == q);
                }
                assert(has_pos(w, shift_pos(v0.pos, shx, shy)));
                assert(has_pos(w, shift_pos(v0.last_checkpoint, shx, shy)));
                assert forall|j: int| 0 <= j < self@.path.len() implies has_pos(
                    w,
                    #[trigger] self@.path[j],
                ) by {
                    assert(self@.path[j] == shift_pos(v0.path[j], shx, shy));
                    assert(has_pos(v0.cells, v0.path[j]));
                }
                if self@.path.len() > 0 {
                    lemma_shift_preserves_adjacent(v0.pos, v0.path[0], shx, shy);
                }
                assert forall|j: int| 0 <= j && j + 1 < self@.path.len() implies adjacent(
                    #[trigger] self@.path[j],
                    self@.path[j + 1],
                ) by {
                    assert(has_pos(v0.cells, v0.path[j]));
                    assert(has_pos(v0.cells, v0.path[j + 1]));
                    assert(adjacent(v0.path[j], v0.path[j + 1]));
                    lemma_shift_preserves_adjacent(v0.path[j], v0.path[j + 1], shx, shy);
                    assert(self@.path[j] == shift_pos(v0.path[j], shx, shy));
                    assert(self@.path[j + 1] == shift_pos(v0.path[j + 1], shx, shy));
                }
                assert(route_connected(w, self@.pos, self@.path));
                assert forall|i: int|
                    0 <= i < w.len() implies 0 <= (#[trigger] w[i]).pos.x <= w.len() + 1 && 0
                    <= w[i].pos.y <= w.len() + 1 by {
                    assert(w[i] == shift_cell(v0.cells[i], shx, shy));
                }
            }
            let t = Pos { x: tx + sx, y: ty + sy };
            proof {
                assert(t == add_target(v0, direction));
                assert(is_step(self@.pos, direction, t));
                assert(!has_pos(w, t)) by {
                    if has_pos(w, t) {
                        let i = idx_of(w, t);
                        assert(0 <= i < w.len() && w[i].pos == t);
                        assert(w[i] == shift_cell(v0.cells[i], shx, shy));
                        assert(0 <= v0.cells[i].pos.x && 0 <= v0.cells[i].pos.y);
                    }
                }
                assert(0 <= t.x <= w.len() + 1 && 0 <= t.y <= w.len() + 1);
            }
            self.insert_new(direction, t);
        }
        proof {
            lemma_add_cell_summary(v0, direction, self@);
        }
    }
}

/// `is_step` flips under a half turn: if `t` is one step in `d` from `p`,
/// then `p` is one step back from `t`.
pub proof fn lemma_step_flip(p: Pos, d: Direction, t: Pos)
    requires
        is_step(p, d, t),
    ensures
        is_step(t, d.spec_back(), p),
        t != p,
        adjacent(p, t),
{
}

/// From the branch-exact description of `add_cell`'s result, the summary
/// facts: the reported neighbor exists, is linked both ways to the current
/// cell, and keeps its kind unless it is new, in which case it is `Unknown`.
proof fn lemma_add_cell_summary(v0: MazeView, direction: Direction, v: MazeView)
    requires
        v0.wf(),
        v0.cells.len() <= MAX_CELLS,
        v.pos == shift_pos(v0.pos, add_shift_x(v0, direction), add_shift_y(v0, direction)),
        ({
            let w = shift_cells(
                v0.cells,
                add_shift_x(v0, direction),
                add_shift_y(v0, direction),
            );
            let t = add_target(v0, direction);
            let sp = v.pos;
            if has_pos(w, t) {
                if nbr(cell_at(w, t), direction.spec_back()) is Some {
                    v.cells == w
                } else {
                    v.cells == with_link(
                        with_link(w, sp, direction, t),
                        t,
                        direction.spec_back(),
                        sp,
                    )
                }
            } else {
                v.cells == with_link(w, sp, direction, t).push(
                    with_nbr(
                        Cell {
                            pos: t,
                            kind: Kind::Unknown,
                            up: None,
                            down: None,
                            left: None,
                            right: None,
                        },
                        direction.spec_back(),
                        sp,
                    ),
                )
            }
        }),
    ensures
        has_pos(v.cells, add_target(v0, direction)),
        nbr(cell_at(v.cells, v.pos), direction) == Some(add_target(v0, direction)),
        nbr(cell_at(v.cells, add_target(v0, direction)), direction.spec_back()) == Some(
            v.pos,
        ),
        kind_at(v.cells, add_target(v0, direction)) == ({
            let w = shift_cells(
                v0.cells,
                add_shift_x(v0, direction),
                add_shift_y(v0, direction),
            );
            let t = add_target(v0, direction);
            if has_pos(w, t) {
                kind_at(w, t)
            } else {
                Kind::Unknown
            }
        }),
{
    let shx = add_shift_x(v0, direction);
    let shy = add_shift_y(v0, direction);
    let w = shift_cells(v0.cells, shx, shy);
    let t = add_target(v0, direction);
    let sp = v.pos;
    lemma_cells_shiftable(v0.cells, shx, shy);
    lemma_translation_preserves_structure(v0.cells, shx, shy);
    lemma_translation_preserves_links(v0.cells, shx, shy);
    assert(positions_unique(w));
    assert(0 <= v0.pos.x <= v0.cells.len() && 0 <= v0.pos.y <= v0.cells.len()) by {
        let i = idx_of(v0.cells, v0.pos);
        assert(0 <= i < v0.cells.len() && v0.cells[i].pos == v0.pos);
    }
    assert(pos_shift_ok(v0.pos, shx, shy));
    assert(has_pos(w, sp));
    assert(is_step(sp, direction, t));
    lemma_step_flip(sp, direction, t);
    if has_pos(w, t) {
        if nbr(cell_at(w, t), direction.spec_back()) is Some {
            let ti = idx_of(w, t);
            assert(0 <= ti < w.len() && w[ti].pos == t);
            assert(link_ok(w, w[ti], direction.spec_back()));
            let r = nbr(cell_at(w, t), direction.spec_back())->0;
            assert(is_step(t, direction.spec_back(), r));
            assert(r == sp);
            assert(nbr(cell_at(w, sp), direction) == Some(t));
        } else {
            let s1 = with_link(w, sp, direction, t);
            lemma_with_link(w, sp, direction, t);
            lemma_with_link(s1, t, direction.spec_back(), sp);
            assert(t != sp);
            assert(nbr(cell_at(v.cells, sp), direction) == Some(t));
            assert(nbr(cell_at(v.cells, t), direction.spec_back()) == Some(sp));
            assert(kind_at(v.cells, t) == kind_at(w, t));
        }
    } else {
        let s1 = with_link(w, sp, direction, t);
        let nc = with_nbr(
            Cell { pos: t, kind: Kind::Unknown, up: None, down: None, left: None, right: None },
            direction.spec_back(),
            sp,
        );
        lemma_with_link(w, sp, direction, t);
        assert(!has_pos(s1, t));
        lemma_push_cell(s1, nc);
        assert(nc.pos == t && nc.kind == Kind::Unknown);
        assert(cell_at(v.cells, t) == nc);
        assert(t != sp);
        assert(has_pos(s1, sp));
        assert(cell_at(v.cells, sp) == cell_at(s1, sp));
        assert(nbr(cell_at(s1, sp), direction) == Some(t));
        assert(nbr(nc, direction.spec_back()) == Some(sp));
    }
}

impl Maze {
    /// The current position.
    pub fn position(&self) -> (r: Pos)
        ensures
            r == self@.pos,
    {
        self.pos
    }

    /// The current heading.
    pub fn heading(&self) -> (r: Direction)
        ensures
            r == self@.dir,
    {
        self.dir
    }

    /// The position of the last recorded checkpoint.
    pub fn checkpoint(&self) -> (r: Pos)
        ensures
            r == self@.last_checkpoint,
    {
        self.last_checkpoint
    }

    /// How many cells have been discovered.
    pub fn cell_count(&self) -> (r: usize)
        ensures
            r == self@.cells.len(),
    {
        self.cells.len()
    }

    /// How many waypoints of a planned route are still pending.
    pub fn route_len(&self) -> (r: usize)
        ensures
            r == self@.path.len(),
    {
        self.path.len()
    }

    /// The kind of the cell at `p`, if one has been discovered there.
    pub fn kind_of(&self, p: Pos) -> (r: Option<Kind>)
        requires
            self@.wf(),
        ensures
            r == (if has_pos(self@.cells, p) {
                Some(kind_at(self@.cells, p))
            } else {
                None::<Kind>
            }),
    {
        match self.cell_index(p) {
            None => None,
            Some(i) => {
                proof {
                    lemma_idx_of(self@.cells, i as int);
                }
                Some(self.cells[i].kind)
            },
        }
    }

    /// The neighbor link of the cell at `p` in direction `d`, if such a
    /// cell has been discovered.
    pub fn neighbor_of(&self, p: Pos, d: Direction) -> (r: Option<Pos>)
        requires
            self@.wf(),
        ensures
            r == (if has_pos(self@.cells, p) {
                nbr(cell_at(self@.cells, p), d)
            } else {
                None::<Pos>
            }),
    {
        match self.cell_index(p) {
            None => None,
            Some(i) => {
                proof {
                    lemma_idx_of(self@.cells, i as int);
                }
                self.cells[i].neighbor(d)
            },
        }
    }
}

/// Undirected consistency, stated on its own: in a well-formed maze a
/// neighbor link from the cell at `p` to `q` in direction `d` is always
/// matched by a link from the cell at `q` back to `p` in the opposite
/// direction.
pub proof fn lemma_links_mutually_consistent(v: MazeView, p: Pos, q: Pos, d: Direction)
    requires
        v.wf(),
        has_pos(v.cells, p),
        nbr(cell_at(v.cells, p), d) == Some(q),
    ensures
        has_pos(v.cells, q),
        nbr(cell_at(v.cells, q), d.spec_back()) == Some(p),
        is_step(p, d, q),
{
    let i = idx_of(v.cells, p);
    assert(0 <= i < v.cells.len() && v.cells[i].pos == p);
    assert(link_ok(v.cells, v.cells[i], d));
}

} // verus!
