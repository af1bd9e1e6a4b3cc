//! Breadth-first search over the neighbor graph, avoiding Black cells, with
//! a reachability specification proved in both directions: a returned path
//! is a valid walk to a cell of the target kind, and `None` comes back only
//! when no such cell is reachable at all.

use vstd::prelude::*;
use vstd::seq_lib::*;
use vstd::set_lib::lemma_len_subset;

use crate::cell::Cell;
use crate::cell::Kind;
use crate::cell::nbr;
use crate::geometry::Direction;
use crate::geometry::Pos;
use crate::maze::Maze;
use crate::maze::cell_at;
use crate::maze::has_pos;
use crate::maze::kind_at;
use crate::maze::lemma_idx_of;
use crate::maze::view_fields;
use crate::maze::link_ok;
use crate::maze::positions_unique;

verus! {

/// A stored cell at `p` has a neighbor link to `q` in some direction.
pub open spec fn linked(s: Seq<Cell>, p: Pos, q: Pos) -> bool {
    has_pos(s, p) && exists|d: Direction| #[trigger] nbr(cell_at(s, p), d) == Some(q)
}

/// `path` is a walk from `src`: each waypoint is a stored, non-Black cell,
/// the first is linked from `src`, and each next waypoint is linked from the
/// one before.
pub open spec fn is_chain(s: Seq<Cell>, src: Pos, path: Seq<Pos>) -> bool {
    &&& forall|j: int|
        0 <= j < path.len() ==> has_pos(s, #[trigger] path[j]) && kind_at(s, path[j])
            != Kind::Black
    &&& path.len() > 0 ==> linked(s, src, path[0])
    &&& forall|j: int|
        0 <= j && j + 1 < path.len() ==> linked(s, #[trigger] path[j], path[j + 1])
}

/// A cell of kind `tar` can be reached from `src` without entering a Black
/// cell: the cell at `src` has that kind itself, or some walk ends on one.
pub open spec fn reachable_kind(s: Seq<Cell>, src: Pos, tar: Kind) -> bool {
    exists|path: Seq<Pos>|
        #[trigger] is_chain(s, src, path) && (if path.len() == 0 {
            has_pos(s, src) && kind_at(s, src) == tar
        } else {
            kind_at(s, path.last()) == tar
        })
}

/// The link of `c` in direction `d`, if any, leads to a Black cell or to a
/// cell already recorded in `vis`.
#[verifier::opaque]
pub open spec fn covered_dir(s: Seq<Cell>, c: Cell, vis: Seq<Pos>, d: Direction) -> bool {
    match nbr(c, d) {
        None => true,
        Some(q) => kind_at(s, q) == Kind::Black || vis.contains(q),
    }
}

/// Every non-Black cell that `c` links to is already recorded in `vis`.
#[verifier::opaque]
pub open spec fn covered(s: Seq<Cell>, c: Cell, vis: Seq<Pos>) -> bool {
    forall|d: Direction| #[trigger] covered_dir(s, c, vis, d)
}

/// A recorded position stays recorded when the record only grows.
proof fn lemma_prefix_contains(a: Seq<Pos>, b: Seq<Pos>, p: Pos)
    requires
        a.is_prefix_of(b),
        a.contains(p),
    ensures
        b.contains(p),
{
    let k = choose|k: int| 0 <= k < a.len() && a[k] == p;
    assert(b[k] == p);
}

/// The search bookkeeping invariant: `vis` and `par` run in parallel, `vis`
/// starts at `src` and holds distinct stored positions, and every entry but
/// the root is non-Black and linked from an earlier entry, its parent.
pub open spec fn bfs_inv(s: Seq<Cell>, src: Pos, vis: Seq<Pos>, par: Seq<usize>) -> bool {
    &&& vis.len() == par.len()
    &&& vis.len() >= 1
    &&& vis[0] == src
    &&& forall|i: int| 0 <= i < vis.len() ==> has_pos(s, #[trigger] vis[i])
    &&& forall|i: int| 1 <= i < vis.len() ==> kind_at(s, #[trigger] vis[i]) != Kind::Black
    &&& forall|i: int| 1 <= i < vis.len() ==> (#[trigger] par[i]) < i
    &&& forall|i: int| 1 <= i < vis.len() ==> linked(s, vis[par[i] as int], #[trigger] vis[i])
    &&& forall|i: int, j: int|
        0 <= i < vis.len() && 0 <= j < vis.len() && vis[i] == vis[j] ==> i == j
}

/// Distinct positions that all name stored cells cannot outnumber the cells.
proof fn lemma_visited_bounded(s: Seq<Cell>, vis: Seq<Pos>)
    requires
        forall|i: int| 0 <= i < vis.len() ==> has_pos(s, #[trigger] vis[i]),
        forall|i: int, j: int|
            0 <= i < vis.len() && 0 <= j < vis.len() && vis[i] == vis[j] ==> i == j,
    ensures
        vis.len() <= s.len(),
{
    broadcast use vstd::seq_lib::group_seq_properties;
    broadcast use vstd::set_lib::group_set_properties;
    broadcast use vstd::set::group_set_axioms;
    broadcast use seq_to_set_is_finite;

    let ps = s.map(|i: int, c: Cell| c.pos);
    assert(vis.no_duplicates());
    vis.unique_seq_to_set();
    ps.lemma_cardinality_of_set();
    assert(vis.to_set().subset_of(ps.to_set())) by {
        assert forall|p: Pos| vis.to_set().contains(p) implies ps.to_set().contains(p) by {
            assert(vis.contains(p));
            assert(has_pos(s, p));
            let j = choose|j: int| 0 <= j < s.len() && s[j].pos == p;
            assert(ps[j] == p);
            assert(ps.contains(p));
        }
    }
    lemma_len_subset(vis.to_set(), ps.to_set());
}

/// A prefix of a chain is a chain.
proof fn lemma_chain_drop_last(s: Seq<Cell>, src: Pos, path: Seq<Pos>)
    requires
        is_chain(s, src, path),
        path.len() > 0,
    ensures
        is_chain(s, src, path.drop_last()),
{
    let pre = path.drop_last();
    assert forall|j: int| 0 <= j < pre.len() implies has_pos(s, #[trigger] pre[j]) && kind_at(
        s,
        pre[j],
    ) != Kind::Black by {
        assert(pre[j] == path[j]);
    }
    assert forall|j: int| 0 <= j && j + 1 < pre.len() implies linked(
        s,
        #[trigger] pre[j],
        pre[j + 1],
    ) by {
        assert(pre[j] == path[j] && pre[j + 1] == path[j + 1]);
    }
    if pre.len() > 0 {
        assert(pre[0] == path[0]);
    }
}

/// Walking any chain out of a set that is closed under non-Black neighbor
/// links never leaves the set.
proof fn lemma_chain_endpoint_visited(s: Seq<Cell>, src: Pos, vis: Seq<Pos>, path: Seq<Pos>)
    requires
        positions_unique(s),
        vis.contains(src),
        forall|i: int|
            0 <= i < vis.len() ==> covered(s, cell_at(s, #[trigger] vis[i]), vis),
        is_chain(s, src, path),
        path.len() > 0,
    ensures
        vis.contains(path.last()),
    decreases path.len(),
{
    reveal(covered);
    reveal(covered_dir);
    let last = path.last();
    if path.len() == 1 {
        assert(linked(s, src, last));
        let k = choose|k: int| 0 <= k < vis.len() && vis[k] == src;
        assert(covered(s, cell_at(s, src), vis));
        let d = choose|d: Direction| #[trigger] nbr(cell_at(s, src), d) == Some(last);
        assert(covered_dir(s, cell_at(s, src), vis, d));
        assert(kind_at(s, last) != Kind::Black);
        assert(vis.contains(last));
    } else {
        let pre = path.drop_last();
        lemma_chain_drop_last(s, src, path);
        lemma_chain_endpoint_visited(s, src, vis, pre);
        let mid = pre.last();
        assert(mid == path[path.len() - 2]);
        assert(linked(s, mid, last));
        let k = choose|k: int| 0 <= k < vis.len() && vis[k] == mid;
        assert(covered(s, cell_at(s, mid), vis));
        let d = choose|d: Direction| #[trigger] nbr(cell_at(s, mid), d) == Some(last);
        assert(covered_dir(s, cell_at(s, mid), vis, d));
        assert(kind_at(s, last) != Kind::Black);
        assert(vis.contains(last));
    }
}

/// When the search has processed every recorded cell without meeting the
/// target kind, no cell of that kind is reachable at all.
proof fn lemma_search_complete(s: Seq<Cell>, src: Pos, vis: Seq<Pos>, tar: Kind)
    requires
        positions_unique(s),
        vis.contains(src),
        forall|i: int|
            0 <= i < vis.len() ==> covered(s, cell_at(s, #[trigger] vis[i]), vis),
        forall|i: int| 0 <= i < vis.len() ==> kind_at(s, #[trigger] vis[i]) != tar,
    ensures
        !reachable_kind(s, src, tar),
{
    if reachable_kind(s, src, tar) {
        let path = choose|path: Seq<Pos>|
            #[trigger] is_chain(s, src, path) && (if path.len() == 0 {
                has_pos(s, src) && kind_at(s, src) == tar
            } else {
                kind_at(s, path.last()) == tar
            });
        if path.len() == 0 {
            let k = choose|k: int| 0 <= k < vis.len() && vis[k] == src;
            assert(kind_at(s, vis[k]) != tar);
        } else {
            lemma_chain_endpoint_visited(s, src, vis, path);
            let k = choose|k: int| 0 <= k < vis.len() && vis[k] == path.last();
            assert(kind_at(s, vis[k]) != tar);
        }
    }
}

/// A non-Black stored cell linked from `src` is reachable in one step; used
/// to tie the local scan to the reachability predicate.
pub proof fn lemma_one_step_reachable(s: Seq<Cell>, src: Pos, q: Pos, tar: Kind)
    requires
        linked(s, src, q),
        has_pos(s, q),
        kind_at(s, q) == tar,
        tar != Kind::Black,
    ensures
        reachable_kind(s, src, tar),
{
    let path = seq![q];
    assert(path.len() == 1 && path[0] == q && path.last() == q);
    assert(is_chain(s, src, path));
    assert(reachable_kind(s, src, tar));
}

/// `v@.contains(p)` decided by a scan.
pub(crate) fn contains_pos(v: &Vec<Pos>, p: Pos) -> (r: bool)
    ensures
        r == v@.contains(p),
{
    let n = v.len();
    let mut i: usize = 0;
    while i < n
        invariant
            i <= n,
            n == v@.len(),
            forall|j: int| 0 <= j < i ==> v@[j] != p,
        decreases n - i,
    {
        if v[i] == p {
            assert(v@.contains(p));
            return true;
        }
        i += 1;
    }
    assert(!v@.contains(p));
    false
}

/// Prefixes compose.
proof fn lemma_prefix_trans(a: Seq<Pos>, b: Seq<Pos>, c: Seq<Pos>)
    requires
        a.is_prefix_of(b),
        b.is_prefix_of(c),
    ensures
        a.is_prefix_of(c),
{
    assert(a =~= c.subrange(0, a.len() as int));
}

/// After the four neighbor directions of the cell under the cursor have been
/// recorded in turn, every cell up to and including the cursor is covered by
/// the final record.
proof fn lemma_scan_covered(
    s: Seq<Cell>,
    head: int,
    vis0: Seq<Pos>,
    vis1: Seq<Pos>,
    vis2: Seq<Pos>,
    vis3: Seq<Pos>,
    vis4: Seq<Pos>,
)
    requires
        0 <= head < vis0.len(),
        forall|i: int| 0 <= i < head ==> covered(s, cell_at(s, #[trigger] vis0[i]), vis0),
        vis0.is_prefix_of(vis1),
        vis1.is_prefix_of(vis2),
        vis2.is_prefix_of(vis3),
        vis3.is_prefix_of(vis4),
        covered_dir(s, cell_at(s, vis0[head]), vis1, Direction::Up),
        covered_dir(s, cell_at(s, vis0[head]), vis2, Direction::Down),
        covered_dir(s, cell_at(s, vis0[head]), vis3, Direction::Left),
        covered_dir(s, cell_at(s, vis0[head]), vis4, Direction::Right),
    ensures
        forall|i: int| 0 <= i <= head ==> covered(s, cell_at(s, #[trigger] vis4[i]), vis4),
{
    reveal(covered);
    reveal(covered_dir);
    lemma_prefix_trans(vis0, vis1, vis2);
    lemma_prefix_trans(vis0, vis2, vis3);
    lemma_prefix_trans(vis0, vis3, vis4);
    lemma_prefix_trans(vis1, vis2, vis3);
    lemma_prefix_trans(vis1, vis3, vis4);
    lemma_prefix_trans(vis2, vis3, vis4);
    let current = vis0[head];
    assert forall|i: int| 0 <= i <= head implies covered(
        s,
        cell_at(s, #[trigger] vis4[i]),
        vis4,
    ) by {
        assert(vis4[i] == vis0[i]);
        if i < head {
            assert(covered(s, cell_at(s, vis0[i]), vis0));
            assert forall|d: Direction| #[trigger] covered_dir(
                s,
                cell_at(s, vis0[i]),
                vis4,
                d,
            ) by {
                assert(covered_dir(s, cell_at(s, vis0[i]), vis0, d));
                match nbr(cell_at(s, vis0[i]), d) {
                    None => {},
                    Some(q) => {
                        if kind_at(s, q) != Kind::Black {
                            lemma_prefix_contains(vis0, vis4, q);
                        }
                    },
                }
            }
        } else {
            assert forall|d: Direction| #[trigger] covered_dir(
                s,
                cell_at(s, current),
                vis4,
                d,
            ) by {
                match nbr(cell_at(s, current), d) {
                    None => {},
                    Some(q) => {
                        if kind_at(s, q) != Kind::Black {
                            match d {
                                Direction::Up => {
                                    assert(covered_dir(s, cell_at(s, current), vis1, d));
                                    lemma_prefix_contains(vis1, vis4, q);
                                },
                                Direction::Down => {
                                    assert(covered_dir(s, cell_at(s, current), vis2, d));
                                    lemma_prefix_contains(vis2, vis4, q);
                                },
                                Direction::Left => {
                                    assert(covered_dir(s, cell_at(s, current), vis3, d));
                                    lemma_prefix_contains(vis3, vis4, q);
                                },
                                Direction::Right => {
                                    assert(covered_dir(s, cell_at(s, current), vis4, d));
                                },
                            }
                        }
                    },
                }
            }
        }
    }
}

impl Maze {
    /// Records the neighbor of the cell being processed (at index `head`)
    /// in direction `d`, unless it is Black or already recorded.
    fn enqueue(&self, visited: &mut Vec<Pos>, parent: &mut Vec<usize>, head: usize, d: Direction)
        requires
            self@.wf(),
            bfs_inv(self@.cells, self@.pos, old(visited)@, old(parent)@),
            head < old(visited)@.len(),
        ensures
            bfs_inv(self@.cells, self@.pos, final(visited)@, final(parent)@),
            old(visited)@.is_prefix_of(final(visited)@),
            covered_dir(
                self@.cells,
                cell_at(self@.cells, old(visited)@[head as int]),
                final(visited)@,
                d,
            ),
    {
        proof {
            view_fields(self);
        }
        let ghost s = self@.cells;
        let current = visited[head];
        let ci = match self.cell_index(current) {
            Some(i) => i,
            None => {
                proof {
                    assert(false);
                }
                0
            },
        };
        proof {
            lemma_idx_of(s, ci as int);
        }
        let c = self.cells[ci];
        match c.neighbor(d) {
            None => {},
            Some(q) => {
                let qi = match self.cell_index(q) {
                    Some(i) => i,
                    None => {
                        proof {
                            assert(link_ok(s, s[ci as int], d));
                            assert(false);
                        }
                        0
                    },
                };
                proof {
                    lemma_idx_of(s, qi as int);
                }
                if self.cells[qi].kind != Kind::Black {
                    if !contains_pos(visited, q) {
                        visited.push(q);
                        parent.push(head);
                        proof {
                            reveal(covered_dir);
                            let vis2 = visited@;
                            let n = old(visited)@.len() as int;
                            assert(vis2[n] == q);
                            assert(linked(s, vis2[head as int], q)) by {
                                assert(nbr(cell_at(s, current), d) == Some(q));
                            }
                            assert forall|i: int, j: int|
                                0 <= i < vis2.len() && 0 <= j < vis2.len() && vis2[i]
                                    == vis2[j] implies i == j by {
                                if i < n && j < n {
                                } else if i == n && j < n {
                                    assert(old(visited)@.contains(q));
                                } else if j == n && i < n {
                                    assert(old(visited)@.contains(q));
                                }
                            }
                            assert(vis2.contains(q));
                        }
                    }
                }
            },
        }
        proof {
            reveal(covered_dir);
        }
    }

    /// Processes the cell under the search cursor: reports whether it has
    /// the target kind and, if not, records its non-Black neighbors in the
    /// fixed order up, down, left, right.
    #[verifier::rlimit(100)]
    fn process(&self, visited: &mut Vec<Pos>, parent: &mut Vec<usize>, head: usize, tar: Kind) -> (r:
        bool)
        requires
            self@.wf(),
            bfs_inv(self@.cells, self@.pos, old(visited)@, old(parent)@),
            head < old(visited)@.len(),
            forall|i: int|
                0 <= i < head ==> covered(
                    self@.cells,
                    cell_at(self@.cells, #[trigger] old(visited)@[i]),
                    old(visited)@,
                ),
        ensures
            bfs_inv(self@.cells, self@.pos, final(visited)@, final(parent)@),
            old(visited)@.is_prefix_of(final(visited)@),
            forall|i: int|
                0 <= i < old(visited)@.len() ==> #[trigger] final(visited)@[i] == old(
                    visited,
                )@[i],
            final(visited)@.len() <= self@.cells.len(),
            r == (kind_at(self@.cells, old(visited)@[head as int]) == tar),
            r ==> final(visited)@ == old(visited)@ && final(parent)@ == old(parent)@,
            !r ==> forall|i: int|
                0 <= i <= head ==> covered(
                    self@.cells,
                    cell_at(self@.cells, #[trigger] final(visited)@[i]),
                    final(visited)@,
                ),
    {
        proof {
            view_fields(self);
        }
        let ghost s = self@.cells;
        let current = visited[head];
        let ci = match self.cell_index(current) {
            Some(i) => i,
            None => {
                proof {
                    assert(false);
                }
                0
            },
        };
        proof {
            lemma_idx_of(s, ci as int);
        }
        if self.cells[ci].kind == tar {
            proof {
                lemma_visited_bounded(s, visited@);
                assert(visited@.is_prefix_of(visited@)) by {
                    assert(visited@ =~= visited@.subrange(0, visited@.len() as int));
                }
            }
            true
        } else {
            let ghost vis0 = visited@;
            self.enqueue(visited, parent, head, Direction::Up);
            let ghost vis1 = visited@;
            self.enqueue(visited, parent, head, Direction::Down);
            let ghost vis2 = visited@;
            self.enqueue(visited, parent, head, Direction::Left);
            let ghost vis3 = visited@;
            self.enqueue(visited, parent, head, Direction::Right);
            let ghost vis4 = visited@;
            proof {
                assert(vis0[head as int] == current);
                assert(cell_at(s, current) == s[ci as int]);
                assert(vis1[head as int] == current);
                assert(vis2[head as int] == current);
                assert(vis3[head as int] == current);
                lemma_prefix_trans(vis0, vis1, vis2);
                lemma_prefix_trans(vis0, vis2, vis3);
                lemma_prefix_trans(vis0, vis3, vis4);
                lemma_scan_covered(s, head as int, vis0, vis1, vis2, vis3, vis4);
                lemma_visited_bounded(s, visited@);
            }
            false
        }
    }

    /// Breadth-first search from the current position for a cell of kind
    /// `tar`, never traversing a Black cell and enumerating neighbors in the
    /// fixed order up, down, left, right, so the chosen path is
    /// deterministic. Returns the waypoints from (excluding) the current
    /// cell to (including) the found cell. `Some` of the empty path means
    /// the current cell itself has kind `tar`; `None` means no cell of that
    /// kind is reachable.
    #[verifier::rlimit(100)]
    pub fn bfs(&self, tar: Kind) -> (r: Option<Vec<Pos>>)
        requires
            self@.wf(),
            tar != Kind::Black,
        ensures
            r is Some <==> reachable_kind(self@.cells, self@.pos, tar),
            r matches Some(p) ==> is_chain(self@.cells, self@.pos, p@),
            r matches Some(p) ==> forall|j: int|
                0 <= j < p@.len() ==> kind_at(self@.cells, #[trigger] p@[j]) != Kind::Black,
            r matches Some(p) ==> (p@.len() == 0 <==> kind_at(self@.cells, self@.pos) == tar),
            r matches Some(p) ==> (p@.len() > 0 ==> kind_at(self@.cells, p@.last()) == tar),
    {
        proof {
            view_fields(self);
        }
        let ghost s = self@.cells;
        let src = self.pos;
        let mut visited: Vec<Pos> = Vec::new();
        let mut parent: Vec<usize> = Vec::new();
        visited.push(src);
        parent.push(0);
        let mut head: usize = 0;
        let mut found: Option<usize> = None;
        proof {
            assert(visited@[0] == src);
        }
        while found.is_none() && head < visited.len()
            invariant
                self@.wf(),
                tar != Kind::Black,
                src == self@.pos,
                s == self@.cells,
                bfs_inv(s, src, visited@, parent@),
                head <= visited@.len(),
                visited@.len() <= s.len(),
                s == self.cells@,
                forall|i: int|
                    0 <= i < head ==> kind_at(s, #[trigger] visited@[i]) != tar,
                forall|i: int|
                    0 <= i < head ==> covered(s, cell_at(s, #[trigger] visited@[i]), visited@),
                found matches Some(t) ==> t == head && head < visited@.len() && kind_at(
                    s,
                    visited@[head as int],
                ) == tar,
            decreases s.len() - head + (if found is None { 1int } else { 0int }),
        {
            if self.process(&mut visited, &mut parent, head, tar) {
                found = Some(head);
            } else {
                proof {
                    assert forall|i: int| 0 <= i < head + 1 implies kind_at(
                        s,
                        #[trigger] visited@[i],
                    ) != tar by {
                        if i < head {
                            assert(kind_at(s, visited@[i]) != tar);
                        }
                    }
                }
                head += 1;
            }
        }
        match found {
            Some(t) => {
                let mut rev: Vec<Pos> = Vec::new();
                let mut k: usize = t;
                while k != 0
                    invariant
                        bfs_inv(s, src, visited@, parent@),
                        t < visited@.len(),
                        k < visited@.len(),
                        rev@.len() == 0 ==> k == t,
                        rev@.len() > 0 ==> k < t,
                        rev@.len() > 0 ==> rev@[0] == visited@[t as int],
                        forall|a: int|
                            0 <= a < rev@.len() ==> has_pos(s, #[trigger] rev@[a]) && kind_at(
                                s,
                                rev@[a],
                            ) != Kind::Black,
                        forall|a: int|
                            0 <= a && a + 1 < rev@.len() ==> linked(
                                s,
                                #[trigger] rev@[a + 1],
                                rev@[a],
                            ),
                        rev@.len() > 0 ==> linked(
                            s,
                            visited@[k as int],
                            rev@[rev@.len() - 1],
                        ),
                    decreases k,
                {
                    rev.push(visited[k]);
                    k = parent[k];
                }
                let n = rev.len();
                let mut path: Vec<Pos> = Vec::new();
                let mut j: usize = n;
                while j > 0
                    invariant
                        j <= n,
                        n == rev@.len(),
                        path@.len() == n - j,
                        forall|b: int|
                            0 <= b < path@.len() ==> #[trigger] path@[b] == rev@[n - 1 - b],
                    decreases j,
                {
                    j -= 1;
                    path.push(rev[j]);
                }
                proof {
                    let pth = path@;
                    assert(pth.len() == n);
                    assert forall|b: int| 0 <= b < pth.len() implies has_pos(
                        s,
                        #[trigger] pth[b],
                    ) && kind_at(s, pth[b]) != Kind::Black by {
                        assert(pth[b] == rev@[n - 1 - b]);
                    }
                    if pth.len() > 0 {
                        assert(pth[0] == rev@[n - 1]);
                        assert(linked(s, visited@[0], rev@[n - 1]));
                    }
                    assert forall|b: int| 0 <= b && b + 1 < pth.len() implies linked(
                        s,
                        #[trigger] pth[b],
                        pth[b + 1],
                    ) by {
                        assert(pth[b] == rev@[n - 1 - b]);
                        assert(pth[b + 1] == rev@[n - 1 - (b + 1)]);
                        assert(linked(s, rev@[(n - 2 - b) + 1], rev@[n - 2 - b]));
                    }
                    assert(is_chain(s, src, pth));
                    if t == 0 {
                        assert(rev@.len() == 0);
                        assert(kind_at(s, src) == tar);
                    } else {
                        assert(rev@.len() > 0);
                        assert(pth.last() == rev@[0]);
                        assert(kind_at(s, pth.last()) == tar);
                        // the root was processed before anything else was
                        // found, so a nonempty path never comes back for a
                        // target the engine is already standing on
                        assert(kind_at(s, visited@[0]) != tar);
                    }
                    assert(reachable_kind(s, src, tar)) by {
                        assert(is_chain(s, src, pth) && (if pth.len() == 0 {
                            has_pos(s, src) && kind_at(s, src) == tar
                        } else {
                            kind_at(s, pth.last()) == tar
                        }));
                    }
                }
                Some(path)
            },
            None => {
                proof {
                    assert(head == visited@.len());
                    assert(visited@.contains(src)) by {
                        assert(visited@[0] == src);
                    }
                    lemma_search_complete(s, src, visited@, tar);
                }
                None
            },
        }
    }
}

} // verus!
