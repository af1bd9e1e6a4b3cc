//! A textual dump of the map for tests and operators: one line of two
//! characters per cell (a symbol and a space) over the bounding box of all
//! discovered cells, padded by one on every side, the current position
//! marked by a heading glyph and pending-route cells by a star. Read-only.

use vstd::prelude::*;
use vstd::string::StringExecFns;

use crate::cell::Cell;
use crate::cell::Kind;
use crate::geometry::Direction;
use crate::geometry::Pos;
use crate::maze::Maze;
use crate::maze::MazeView;
use crate::maze::has_pos;
use crate::maze::kind_at;
use crate::maze::lemma_idx_of;
use crate::maze::view_fields;
use crate::maze::MAX_CELLS;

verus! {

/// The map symbol for a cell kind.
pub open spec fn kind_char(k: Kind) -> char {
    match k {
        Kind::Start => 'S',
        Kind::Unknown => '?',
        Kind::Empty => ' ',
        Kind::Checkpoint => 'C',
        Kind::Blue => 'B',
        Kind::Victim => 'V',
        Kind::Ramp => 'R',
        Kind::Black => '#',
    }
}

/// The glyph marking the current position, by heading.
pub open spec fn arrow_char(d: Direction) -> char {
    match d {
        Direction::Up => '^',
        Direction::Down => 'v',
        Direction::Left => '<',
        Direction::Right => '>',
    }
}

/// The character the dump shows for grid coordinates `(x, y)`.
pub open spec fn symbol_at(v: MazeView, x: int, y: int) -> char {
    let p = Pos { x: x as i32, y: y as i32 };
    if p == v.pos {
        arrow_char(v.dir)
    } else if v.path.contains(p) {
        '*'
    } else if has_pos(v.cells, p) {
        kind_char(kind_at(v.cells, p))
    } else {
        '.'
    }
}

/// The smallest x coordinate of any stored cell.
pub open spec fn min_x_of(s: Seq<Cell>) -> int
    decreases s.len(),
{
    if s.len() <= 1 {
        if s.len() == 1 {
            s[0].pos.x as int
        } else {
            0
        }
    } else {
        let m = min_x_of(s.drop_last());
        if s.last().pos.x < m {
            s.last().pos.x as int
        } else {
            m
        }
    }
}

/// The largest x coordinate of any stored cell.
pub open spec fn max_x_of(s: Seq<Cell>) -> int
    decreases s.len(),
{
    if s.len() <= 1 {
        if s.len() == 1 {
            s[0].pos.x as int
        } else {
            0
        }
    } else {
        let m = max_x_of(s.drop_last());
        if s.last().pos.x > m {
            s.last().pos.x as int
        } else {
            m
        }
    }
}

/// The smallest y coordinate of any stored cell.
pub open spec fn min_y_of(s: Seq<Cell>) -> int
    decreases s.len(),
{
    if s.len() <= 1 {
        if s.len() == 1 {
            s[0].pos.y as int
        } else {
            0
        }
    } else {
        let m = min_y_of(s.drop_last());
        if s.last().pos.y < m {
            s.last().pos.y as int
        } else {
            m
        }
    }
}

/// The largest y coordinate of any stored cell.
pub open spec fn max_y_of(s: Seq<Cell>) -> int
    decreases s.len(),
{
    if s.len() <= 1 {
        if s.len() == 1 {
            s[0].pos.y as int
        } else {
            0
        }
    } else {
        let m = max_y_of(s.drop_last());
        if s.last().pos.y > m {
            s.last().pos.y as int
        } else {
            m
        }
    }
}

impl Maze {
    /// The bounding box of all discovered cells, as
    /// `(min x, max x, min y, max y)`.
    pub fn bounds(&self) -> (r: (i32, i32, i32, i32))
        requires
            self@.wf(),
            self@.cells.len() <= MAX_CELLS,
        ensures
            r.0 == min_x_of(self@.cells),
            r.1 == max_x_of(self@.cells),
            r.2 == min_y_of(self@.cells),
            r.3 == max_y_of(self@.cells),
            0 <= r.0 <= r.1 <= self@.cells.len(),
            0 <= r.2 <= r.3 <= self@.cells.len(),
    {
        proof {
            view_fields(self);
        }
        let ghost s = self@.cells;
        let n = self.cells.len();
        proof {
            assert(n >= 1);
            assert(s.subrange(0, 1).len() == 1);
            assert(s.subrange(0, 1)[0] == s[0]);
        }
        let c0 = self.cells[0];
        let mut min_x = c0.pos.x;
        let mut max_x = c0.pos.x;
        let mut min_y = c0.pos.y;
        let mut max_y = c0.pos.y;
        let mut i: usize = 1;
        while i < n
            invariant
                1 <= i <= n,
                n == s.len(),
                s == self@.cells,
                s == self.cells@,
                self@.wf(),
                min_x == min_x_of(s.subrange(0, i as int)),
                max_x == max_x_of(s.subrange(0, i as int)),
                min_y == min_y_of(s.subrange(0, i as int)),
                max_y == max_y_of(s.subrange(0, i as int)),
                0 <= min_x <= max_x <= n,
                0 <= min_y <= max_y <= n,
            decreases n - i,
        {
            let c = self.cells[i];
            proof {
                let pre = s.subrange(0, i as int);
                let cur = s.subrange(0, i as int + 1);
                assert(cur.drop_last() =~= pre);
                assert(cur.last() == s[i as int]);
                assert(0 <= s[i as int].pos.x <= s.len() && 0 <= s[i as int].pos.y
                    <= s.len());
            }
            if c.pos.x < min_x {
                min_x = c.pos.x;
            }
            if c.pos.x > max_x {
                max_x = c.pos.x;
            }
            if c.pos.y < min_y {
                min_y = c.pos.y;
            }
            if c.pos.y > max_y {
                max_y = c.pos.y;
            }
            i += 1;
        }
        proof {
            assert(s.subrange(0, n as int) =~= s);
        }
        (min_x, max_x, min_y, max_y)
    }

    /// The two-character column for grid coordinates `(x, y)`: the symbol
    /// there, then a space.
    fn glyph_at(&self, x: i32, y: i32) -> (r: &'static str)
        requires
            self@.wf(),
        ensures
            r@.len() == 2,
            r@[0] == symbol_at(self@, x as int, y as int),
            r@[1] == ' ',
    {
        proof {
            view_fields(self);
        }
        let p = Pos { x, y };
        if self.pos == p {
            match self.dir {
                Direction::Up => {
                    proof {
                        reveal_strlit("^ ");
                    }
                    "^ "
                },
                Direction::Down => {
                    proof {
                        reveal_strlit("v ");
                    }
                    "v "
                },
                Direction::Left => {
                    proof {
                        reveal_strlit("< ");
                    }
                    "< "
                },
                Direction::Right => {
                    proof {
                        reveal_strlit("> ");
                    }
                    "> "
                },
            }
        } else if crate::search::contains_pos(&self.path, p) {
            proof {
                reveal_strlit("* ");
            }
            "* "
        } else {
            match self.cell_index(p) {
                None => {
                    proof {
                        reveal_strlit(". ");
                    }
                    ". "
                },
                Some(i) => {
                    proof {
                        lemma_idx_of(self@.cells, i as int);
                    }
                    match self.cells[i].kind {
                        Kind::Start => {
                            proof {
                                reveal_strlit("S ");
                            }
                            "S "
                        },
                        Kind::Unknown => {
                            proof {
                                reveal_strlit("? ");
                            }
                            "? "
                        },
                        Kind::Empty => {
                            proof {
                                reveal_strlit("  ");
                            }
                            "  "
                        },
                        Kind::Checkpoint => {
                            proof {
                                reveal_strlit("C ");
                            }
                            "C "
                        },
                        Kind::Blue => {
                            proof {
                                reveal_strlit("B ");
                            }
                            "B "
                        },
                        Kind::Victim => {
                            proof {
                                reveal_strlit("V ");
                            }
                            "V "
                        },
                        Kind::Ramp => {
                            proof {
                                reveal_strlit("R ");
                            }
                            "R "
                        },
                        Kind::Black => {
                            proof {
                                reveal_strlit("# ");
                            }
                            "# "
                        },
                    }
                },
            }
        }
    }

    /// The rendered map, one line per grid row: the bounding box of all
    /// discovered cells padded by one ring of undiscovered positions, each
    /// position shown as its symbol and a space.
    pub fn render_lines(&self) -> (r: Vec<String>)
        requires
            self@.wf(),
            self@.cells.len() <= MAX_CELLS,
        ensures
            r@.len() == max_y_of(self@.cells) - min_y_of(self@.cells) + 3,
            forall|row: int|
                0 <= row < r@.len() ==> (#[trigger] r@[row])@.len() == 2 * (max_x_of(
                    self@.cells,
                ) - min_x_of(self@.cells) + 3),
            forall|row: int, col: int|
                0 <= row < r@.len() && 0 <= col < max_x_of(self@.cells) - min_x_of(
                    self@.cells,
                ) + 3 ==> #[trigger] (r@[row])@[2 * col] == symbol_at(
                    self@,
                    min_x_of(self@.cells) - 1 + col,
                    min_y_of(self@.cells) - 1 + row,
                ) && (r@[row])@[2 * col + 1] == ' ',
    {
        let (min_x, max_x, min_y, max_y) = self.bounds();
        let ghost v = self@;
        let ghost cols = max_x_of(v.cells) - min_x_of(v.cells) + 3;
        let mut lines: Vec<String> = Vec::new();
        let mut y = min_y - 1;
        while y <= max_y + 1
            invariant
                self@.wf(),
                v == self@,
                min_x as int == min_x_of(v.cells),
                max_x as int == max_x_of(v.cells),
                min_y as int == min_y_of(v.cells),
                max_y as int == max_y_of(v.cells),
                0 <= min_x <= max_x < i32::MAX - 1,
                0 <= min_y <= max_y < i32::MAX - 1,
                cols == max_x - min_x + 3,
                min_y - 1 <= y <= max_y + 2,
                lines@.len() == y - (min_y - 1),
                forall|row: int|
                    0 <= row < lines@.len() ==> (#[trigger] lines@[row])@.len() == 2 * cols,
                forall|row: int, col: int|
                    0 <= row < lines@.len() && 0 <= col < cols ==> #[trigger] (
                    lines@[row])@[2 * col] == symbol_at(v, min_x - 1 + col, min_y - 1 + row)
                        && (lines@[row])@[2 * col + 1] == ' ',
            decreases max_y + 2 - y,
        {
            let mut row = String::new();
            let mut x = min_x - 1;
            while x <= max_x + 1
                invariant
                    self@.wf(),
                    v == self@,
                    min_x as int == min_x_of(v.cells),
                    max_x as int == max_x_of(v.cells),
                    0 <= min_x <= max_x < i32::MAX - 1,
                    cols == max_x - min_x + 3,
                    min_x - 1 <= x <= max_x + 2,
                    row@.len() == 2 * (x - (min_x - 1)),
                    forall|col: int|
                        0 <= col < x - (min_x - 1) ==> #[trigger] row@[2 * col] == symbol_at(
                            v,
                            min_x - 1 + col,
                            y as int,
                        ) && row@[2 * col + 1] == ' ',
                decreases max_x + 2 - x,
            {
                let g = self.glyph_at(x, y);
                row.append(g);
                proof {
                    let col = x - (min_x - 1);
                    assert(row@[2 * col] == symbol_at(v, x as int, y as int));
                    assert(x as int == min_x - 1 + col);
                }
                x += 1;
            }
            lines.push(row);
            y += 1;
        }
        proof {
            assert forall|row: int, col: int|
                0 <= row < lines@.len() && 0 <= col < max_x_of(v.cells) - min_x_of(v.cells)
                    + 3 implies #[trigger] (lines@[row])@[2 * col] == symbol_at(
                v,
                min_x_of(v.cells) - 1 + col,
                min_y_of(v.cells) - 1 + row,
            ) && (lines@[row])@[2 * col + 1] == ' ' by {
                assert((lines@[row])@[2 * col] == symbol_at(v, min_x - 1 + col, min_y - 1
                    + row) && (lines@[row])@[2 * col + 1] == ' ');
            }
        }
        lines
    }
}

} // verus!
