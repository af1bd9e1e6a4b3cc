//! Coordinate normalization: translating every stored position by a constant
//! vector. The translation is purely a relabeling; the lemma at the end
//! states that it preserves every neighbor relation and every kind.

use vstd::prelude::*;

use crate::cell::Cell;
use crate::cell::Kind;
use crate::cell::nbr;
use crate::geometry::Direction;
use crate::geometry::Pos;
use crate::geometry::is_step;
use crate::maze::cell_at;
use crate::maze::has_pos;
use crate::maze::idx_of;
use crate::maze::kind_at;
use crate::maze::link_ok;
use crate::maze::links_wf;
use crate::maze::one_start;
use crate::maze::positions_unique;

verus! {

/// `p` translated by `(dx, dy)`.
pub open spec fn shift_pos(p: Pos, dx: int, dy: int) -> Pos {
    Pos { x: (p.x + dx) as i32, y: (p.y + dy) as i32 }
}

/// Translating `p` by `(dx, dy)` stays within `i32`, so the relabeling loses
/// nothing.
pub open spec fn pos_shift_ok(p: Pos, dx: int, dy: int) -> bool {
    i32::MIN <= p.x + dx <= i32::MAX && i32::MIN <= p.y + dy <= i32::MAX
}

/// An optional position translated by `(dx, dy)`.
pub open spec fn shift_opt(o: Option<Pos>, dx: int, dy: int) -> Option<Pos> {
    match o {
        None => None,
        Some(q) => Some(shift_pos(q, dx, dy)),
    }
}

pub open spec fn opt_shift_ok(o: Option<Pos>, dx: int, dy: int) -> bool {
    match o {
        None => true,
        Some(q) => pos_shift_ok(q, dx, dy),
    }
}

/// A cell with its position and all four neighbor links translated; the kind
/// is untouched.
pub open spec fn shift_cell(c: Cell, dx: int, dy: int) -> Cell {
    Cell {
        pos: shift_pos(c.pos, dx, dy),
        kind: c.kind,
        up: shift_opt(c.up, dx, dy),
        down: shift_opt(c.down, dx, dy),
        left: shift_opt(c.left, dx, dy),
        right: shift_opt(c.right, dx, dy),
    }
}

pub open spec fn cell_shift_ok(c: Cell, dx: int, dy: int) -> bool {
    &&& pos_shift_ok(c.pos, dx, dy)
    &&& opt_shift_ok(c.up, dx, dy)
    &&& opt_shift_ok(c.down, dx, dy)
    &&& opt_shift_ok(c.left, dx, dy)
    &&& opt_shift_ok(c.right, dx, dy)
}

/// The whole store translated by `(dx, dy)`.
pub open spec fn shift_cells(s: Seq<Cell>, dx: int, dy: int) -> Seq<Cell> {
    Seq::new(s.len(), |i: int| shift_cell(s[i], dx, dy))
}

pub open spec fn cells_shift_ok(s: Seq<Cell>, dx: int, dy: int) -> bool {
    forall|i: int| 0 <= i < s.len() ==> cell_shift_ok(#[trigger] s[i], dx, dy)
}

/// A sequence of positions (a pending route) translated by `(dx, dy)`.
pub open spec fn shift_route(r: Seq<Pos>, dx: int, dy: int) -> Seq<Pos> {
    Seq::new(r.len(), |i: int| shift_pos(r[i], dx, dy))
}

pub open spec fn route_shift_ok(r: Seq<Pos>, dx: int, dy: int) -> bool {
    forall|i: int| 0 <= i < r.len() ==> pos_shift_ok(#[trigger] r[i], dx, dy)
}

/// Translation is injective while it stays in range.
pub proof fn lemma_shift_pos_injective(p: Pos, q: Pos, dx: int, dy: int)
    requires
        pos_shift_ok(p, dx, dy),
        pos_shift_ok(q, dx, dy),
        shift_pos(p, dx, dy) == shift_pos(q, dx, dy),
    ensures
        p == q,
{
}

/// A step relation is untouched by translation: `q` is one step from `p` in
/// direction `d` exactly when the translated `q` is one step from the
/// translated `p`.
pub proof fn lemma_shift_preserves_step(p: Pos, q: Pos, d: Direction, dx: int, dy: int)
    requires
        pos_shift_ok(p, dx, dy),
        pos_shift_ok(q, dx, dy),
    ensures
        is_step(p, d, q) <==> is_step(
            shift_pos(p, dx, dy),
            d,
            shift_pos(q, dx, dy),
        ),
{
}

/// Translating all stored positions by a constant vector changes no neighbor
/// relation and no kind: a cell sits at `p` before exactly when one sits at
/// the translated `p` after, with the same kind, and with each neighbor link
/// the translation of the link before. Coordinate normalization is therefore
/// topology-preserving.
pub proof fn lemma_translation_preserves_structure(s: Seq<Cell>, dx: int, dy: int)
    requires
        positions_unique(s),
        cells_shift_ok(s, dx, dy),
    ensures
        shift_cells(s, dx, dy).len() == s.len(),
        positions_unique(shift_cells(s, dx, dy)),
        forall|p: Pos|
            pos_shift_ok(p, dx, dy) ==> (#[trigger] has_pos(
                shift_cells(s, dx, dy),
                shift_pos(p, dx, dy),
            ) <==> has_pos(s, p)),
        forall|p: Pos|
            has_pos(s, p) ==> #[trigger] idx_of(shift_cells(s, dx, dy), shift_pos(p, dx, dy))
                == idx_of(s, p),
        forall|p: Pos|
            has_pos(s, p) ==> #[trigger] kind_at(shift_cells(s, dx, dy), shift_pos(p, dx, dy))
                == kind_at(s, p),
        forall|p: Pos, d: Direction|
            has_pos(s, p) ==> #[trigger] nbr(
                cell_at(shift_cells(s, dx, dy), shift_pos(p, dx, dy)),
                d,
            ) == shift_opt(nbr(cell_at(s, p), d), dx, dy),
        one_start(s) ==> one_start(shift_cells(s, dx, dy)),
{
    let s2 = shift_cells(s, dx, dy);
    assert forall|i: int, j: int|
        0 <= i < s2.len() && 0 <= j < s2.len() && s2[i].pos == s2[j].pos implies i == j by {
        lemma_shift_pos_injective(s[i].pos, s[j].pos, dx, dy);
    }
    assert forall|p: Pos| pos_shift_ok(p, dx, dy) && has_pos(s2, shift_pos(p, dx, dy))
        implies has_pos(s, p) by {
        let i = choose|i: int| 0 <= i < s2.len() && s2[i].pos == shift_pos(p, dx, dy);
        lemma_shift_pos_injective(s[i].pos, p, dx, dy);
    }
    assert forall|p: Pos| has_pos(s, p) implies has_pos(s2, shift_pos(p, dx, dy)) by {
        let i = idx_of(s, p);
        assert(s2[i].pos == shift_pos(p, dx, dy));
    }
    assert forall|p: Pos| has_pos(s, p) implies idx_of(s2, shift_pos(p, dx, dy)) == idx_of(
        s,
        p,
    ) by {
        let i = idx_of(s, p);
        assert(s2[i].pos == shift_pos(p, dx, dy));
        let i2 = idx_of(s2, shift_pos(p, dx, dy));
        assert(0 <= i2 < s2.len() && s2[i2].pos == shift_pos(p, dx, dy));
    }
    if one_start(s) {
        let si = choose|i: int| 0 <= i < s.len() && s[i].kind == Kind::Start;
        assert(s2[si].kind == Kind::Start);
        assert forall|i: int, j: int|
            0 <= i < s2.len() && 0 <= j < s2.len() && s2[i].kind == Kind::Start && s2[j].kind
                == Kind::Start implies i == j by {
            assert(s[i].kind == Kind::Start && s[j].kind == Kind::Start);
        }
    }
}

/// Translation also preserves link consistency: a store whose links are
/// geometric and mutual keeps that shape under any in-range translation.
pub proof fn lemma_translation_preserves_links(s: Seq<Cell>, dx: int, dy: int)
    requires
        positions_unique(s),
        cells_shift_ok(s, dx, dy),
        links_wf(s),
    ensures
        links_wf(shift_cells(s, dx, dy)),
{
    let s2 = shift_cells(s, dx, dy);
    lemma_translation_preserves_structure(s, dx, dy);
    assert forall|i: int, d: Direction| 0 <= i < s2.len() implies #[trigger] link_ok(
        s2,
        s2[i],
        d,
    ) by {
        assert(link_ok(s, s[i], d));
        match nbr(s[i], d) {
            None => {},
            Some(q) => {
                let qi = idx_of(s, q);
                assert(0 <= qi < s.len() && s[qi].pos == q);
                assert(cell_shift_ok(s[qi], dx, dy));
                lemma_shift_preserves_step(s[i].pos, q, d, dx, dy);
                assert(nbr(s2[i], d) == Some(shift_pos(q, dx, dy)));
                assert(has_pos(s2, shift_pos(q, dx, dy)));
                assert(cell_at(s2, shift_pos(q, dx, dy)) == s2[qi]);
                assert(nbr(s2[qi], d.spec_back()) == shift_opt(
                    nbr(s[qi], d.spec_back()),
                    dx,
                    dy,
                ));
                assert(nbr(cell_at(s, q), d.spec_back()) == Some(s[i].pos));
            },
        }
    }
}

} // verus!
