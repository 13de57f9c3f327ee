//! Laws the engine obeys, stated and proved once for every grid.
//!
//! The stepping functions' own contracts say what each call does; the proof
//! functions here state the consequences a reader should be able to rely
//! on: candidate sets only shrink, a successful tick resolves exactly one
//! cell, and a fully collapsed grid is adjacency-consistent everywhere.

use crate::grid::all_compatible;
use crate::grid::cell_evolves;
use crate::grid::lemma_grid_resolved_bounds;
use crate::grid::narrows;
use crate::grid::resolved_bit;
use crate::grid::row_resolved;
use crate::grid::rows_resolved;
use crate::grid::step_x;
use crate::grid::step_y;
use crate::grid::supported;
use crate::grid::supported_toward;
use crate::grid::Grid;
use crate::tiles::compatible;
use crate::tiles::opp;
use crate::tiles::Direction;
use crate::tiles::Entry;
use crate::tiles::Tile;
use vstd::prelude::*;

verus! {

/// Monotonicity: across any number of ticks, a still-open cell has lost
/// candidates, never gained any.
pub proof fn lemma_monotone_candidates(a: Tile, b: Tile)
    requires
        cell_evolves(a, b),
        a.is_open(),
        b.is_open(),
    ensures
        b.candidates().len() <= a.candidates().len(),
        forall|i: int|
            0 <= i < b.candidates().len() ==> a.candidates().contains(#[trigger] b.candidates()[i]),
{
}

/// Rows with cellwise equal resolution state count the same.
proof fn lemma_row_resolved_bits(r1: Seq<Tile>, r2: Seq<Tile>)
    requires
        r1.len() == r2.len(),
        forall|j: int| 0 <= j < r1.len() ==> resolved_bit(r1[j]) == resolved_bit(#[trigger] r2[j]),
    ensures
        row_resolved(r1) == row_resolved(r2),
    decreases r1.len(),
{
    if r1.len() > 0 {
        assert forall|j: int|
            0 <= j < r1.drop_last().len() implies resolved_bit(r1.drop_last()[j]) == resolved_bit(
            #[trigger] r2.drop_last()[j]) by {
            assert(r1.drop_last()[j] == r1[j]);
            assert(r2.drop_last()[j] == r2[j]);
        }
        lemma_row_resolved_bits(r1.drop_last(), r2.drop_last());
        assert(resolved_bit(r1.last()) == resolved_bit(r2[r1.len() - 1]));
    }
}

/// A row that resolved exactly one more cell counts one higher.
proof fn lemma_row_resolved_bits_except(r1: Seq<Tile>, r2: Seq<Tile>, y: int)
    requires
        r1.len() == r2.len(),
        0 <= y < r1.len(),
        forall|j: int|
            0 <= j < r1.len() && j != y ==> resolved_bit(r1[j]) == resolved_bit(#[trigger] r2[j]),
        r1[y].is_open(),
        !r2[y].is_open(),
    ensures
        row_resolved(r2) == row_resolved(r1) + 1,
    decreases r1.len(),
{
    if y == r1.len() - 1 {
        assert forall|j: int|
            0 <= j < r1.drop_last().len() implies resolved_bit(r1.drop_last()[j]) == resolved_bit(
            #[trigger] r2.drop_last()[j]) by {
            assert(r1.drop_last()[j] == r1[j]);
            assert(r2.drop_last()[j] == r2[j]);
        }
        lemma_row_resolved_bits(r1.drop_last(), r2.drop_last());
    } else {
        assert forall|j: int|
            0 <= j < r1.drop_last().len() && j != y implies resolved_bit(r1.drop_last()[j])
            == resolved_bit(#[trigger] r2.drop_last()[j]) by {
            assert(r1.drop_last()[j] == r1[j]);
            assert(r2.drop_last()[j] == r2[j]);
        }
        assert(r1.drop_last()[y] == r1[y]);
        assert(r2.drop_last()[y] == r2[y]);
        lemma_row_resolved_bits_except(r1.drop_last(), r2.drop_last(), y);
        assert(resolved_bit(r1.last()) == resolved_bit(r2[r1.len() - 1]));
    }
}

/// Grids with cellwise equal resolution state count the same.
proof fn lemma_rows_resolved_bits(rows1: Seq<Vec<Tile>>, rows2: Seq<Vec<Tile>>)
    requires
        rows1.len() == rows2.len(),
        forall|i: int| 0 <= i < rows1.len() ==> rows1[i]@.len() == (#[trigger] rows2[i])@.len(),
        forall|i: int, j: int|
            0 <= i < rows1.len() && 0 <= j < rows1[i]@.len() ==> resolved_bit(rows1[i]@[j])
                == resolved_bit(#[trigger] rows2[i]@[j]),
    ensures
        rows_resolved(rows1) == rows_resolved(rows2),
    decreases rows1.len(),
{
    if rows1.len() > 0 {
        let n = rows1.len() - 1;
        assert forall|i: int, j: int|
            0 <= i < rows1.drop_last().len() && 0 <= j < rows1.drop_last()[i]@.len() implies
            resolved_bit(rows1.drop_last()[i]@[j]) == resolved_bit(
            #[trigger] rows2.drop_last()[i]@[j]) by {
            assert(rows1.drop_last()[i] == rows1[i]);
            assert(rows2.drop_last()[i] == rows2[i]);
        }
        assert forall|i: int|
            0 <= i < rows1.drop_last().len() implies rows1.drop_last()[i]@.len() == (
        #[trigger] rows2.drop_last()[i])@.len() by {
            assert(rows1.drop_last()[i] == rows1[i]);
            assert(rows2.drop_last()[i] == rows2[i]);
        }
        lemma_rows_resolved_bits(rows1.drop_last(), rows2.drop_last());
        assert forall|j: int|
            0 <= j < rows1.last()@.len() implies resolved_bit(rows1.last()@[j]) == resolved_bit(
            #[trigger] rows2.last()@[j]) by {
            assert(rows1.last() == rows1[n]);
            assert(rows2.last() == rows2[n]);
        }
        lemma_row_resolved_bits(rows1.last()@, rows2.last()@);
    }
}

/// A grid that resolved exactly one more cell counts one higher.
proof fn lemma_rows_resolved_bits_except(
    rows1: Seq<Vec<Tile>>,
    rows2: Seq<Vec<Tile>>,
    x: int,
    y: int,
)
    requires
        rows1.len() == rows2.len(),
        forall|i: int| 0 <= i < rows1.len() ==> rows1[i]@.len() == (#[trigger] rows2[i])@.len(),
        0 <= x < rows1.len(),
        0 <= y < rows1[x]@.len(),
        forall|i: int, j: int|
            0 <= i < rows1.len() && 0 <= j < rows1[i]@.len() && !(i == x && j == y) ==> resolved_bit(
                rows1[i]@[j],
            ) == resolved_bit(#[trigger] rows2[i]@[j]),
        rows1[x]@[y].is_open(),
        !rows2[x]@[y].is_open(),
    ensures
        rows_resolved(rows2) == rows_resolved(rows1) + 1,
    decreases rows1.len(),
{
    let n = rows1.len() - 1;
    if x == n {
        assert forall|i: int, j: int|
            0 <= i < rows1.drop_last().len() && 0 <= j < rows1.drop_last()[i]@.len() implies
            resolved_bit(rows1.drop_last()[i]@[j]) == resolved_bit(
            #[trigger] rows2.drop_last()[i]@[j]) by {
            assert(rows1.drop_last()[i] == rows1[i]);
            assert(rows2.drop_last()[i] == rows2[i]);
        }
        assert forall|i: int|
            0 <= i < rows1.drop_last().len() implies rows1.drop_last()[i]@.len() == (
        #[trigger] rows2.drop_last()[i])@.len() by {
            assert(rows1.drop_last()[i] == rows1[i]);
            assert(rows2.drop_last()[i] == rows2[i]);
        }
        lemma_rows_resolved_bits(rows1.drop_last(), rows2.drop_last());
        assert forall|j: int|
            0 <= j < rows1.last()@.len() && j != y implies resolved_bit(rows1.last()@[j])
            == resolved_bit(#[trigger] rows2.last()@[j]) by {
            assert(rows1.last() == rows1[n]);
            assert(rows2.last() == rows2[n]);
        }
        assert(rows1.last()@[y] == rows1[x]@[y]);
        assert(rows2.last()@[y] == rows2[x]@[y]);
        lemma_row_resolved_bits_except(rows1.last()@, rows2.last()@, y);
    } else {
        assert forall|i: int, j: int|
            0 <= i < rows1.drop_last().len() && 0 <= j < rows1.drop_last()[i]@.len() && !(i == x && j
                == y) implies resolved_bit(rows1.drop_last()[i]@[j]) == resolved_bit(
            #[trigger] rows2.drop_last()[i]@[j]) by {
            assert(rows1.drop_last()[i] == rows1[i]);
            assert(rows2.drop_last()[i] == rows2[i]);
        }
        assert forall|i: int|
            0 <= i < rows1.drop_last().len() implies rows1.drop_last()[i]@.len() == (
        #[trigger] rows2.drop_last()[i])@.len() by {
            assert(rows1.drop_last()[i] == rows1[i]);
            assert(rows2.drop_last()[i] == rows2[i]);
        }
        assert(rows1.drop_last()[x] == rows1[x]);
        assert(rows2.drop_last()[x] == rows2[x]);
        lemma_rows_resolved_bits_except(rows1.drop_last(), rows2.drop_last(), x, y);
        assert forall|j: int|
            0 <= j < rows1.last()@.len() implies resolved_bit(rows1.last()@[j]) == resolved_bit(
            #[trigger] rows2.last()@[j]) by {
            assert(rows1.last() == rows1[n]);
            assert(rows2.last() == rows2[n]);
        }
        lemma_row_resolved_bits(rows1.last()@, rows2.last()@);
    }
}

/// At most one resolution per tick: when one cell went from open to
/// resolved and every other cell kept its state of openness — what a
/// successful `tick` guarantees — the grid holds exactly one more resolved
/// cell, and an accurate counter rose by exactly one.
pub proof fn lemma_one_resolution(g1: Grid, g2: Grid, x: int, y: int)
    requires
        g1.in_bounds(x, y),
        g2.width() == g1.width(),
        g2.height() == g1.height(),
        g2.dims_ok(),
        g1.dims_ok(),
        g1.cell(x, y).is_open(),
        !g2.cell(x, y).is_open(),
        forall|i: int, j: int|
            g1.in_bounds(i, j) && !(i == x && j == y) ==> narrows(
                #[trigger] g1.cell(i, j),
                g2.cell(i, j),
            ),
    ensures
        rows_resolved(g2.0@) == rows_resolved(g1.0@) + 1,
{
    assert forall|i: int, j: int|
        0 <= i < g1.0@.len() && 0 <= j < g1.0@[i]@.len() && !(i == x && j == y) implies
        resolved_bit(g1.0@[i]@[j]) == resolved_bit(#[trigger] g2.0@[i]@[j]) by {
        assert(narrows(g1.cell(i, j), g2.cell(i, j)));
    }
    lemma_rows_resolved_bits_except(g1.0@, g2.0@, x, y);
}

/// The forced neighbour: when a tick has just resolved the cell at (x, y)
/// and the open cell one step along `d` has no other in-bounds neighbour,
/// that cell is left holding exactly its earlier candidates that match the
/// resolved tile. `g` is the grid the tick returned and `cand_old` the open
/// cell's candidates before the tick; the two hypotheses relating them —
/// every survivor stood among `cand_old`, and everything the final grid
/// still supports survived — are the tick's own guarantees (its narrowing
/// and survival clauses), and the match upper bound comes from the grid
/// invariant.
pub proof fn lemma_forced_neighbour(
    g: Grid,
    x: int,
    y: int,
    d: Direction,
    cand_old: Seq<Entry>,
)
    requires
        g.wf(),
        g.in_bounds(x, y),
        !g.cell(x, y).is_open(),
        g.in_bounds(step_x(x, d), step_y(y, d)),
        g.cell(step_x(x, d), step_y(y, d)).is_open(),
        // the open cell's only in-bounds neighbour is (x, y)
        forall|d2: Direction|
            g.in_bounds(
                step_x(step_x(x, d), d2),
                #[trigger] step_y(step_y(y, d), d2),
            ) ==> d2 == opp(d),
        // what the tick guarantees of the open cell:
        forall|ci: int|
            0 <= ci < g.cell(step_x(x, d), step_y(y, d)).candidates().len() ==> cand_old.contains(
                #[trigger] g.cell(step_x(x, d), step_y(y, d)).candidates()[ci],
            ),
        forall|ci: int|
            0 <= ci < cand_old.len() && supported(
                g,
                step_x(x, d),
                step_y(y, d),
                (#[trigger] cand_old[ci]).1,
            ) ==> g.cell(step_x(x, d), step_y(y, d)).candidates().contains(cand_old[ci]),
    ensures
        forall|ci: int|
            0 <= ci < cand_old.len() ==> (g.cell(step_x(x, d), step_y(y, d)).candidates().contains(
                #[trigger] cand_old[ci],
            ) <==> compatible(g.cell(x, y).candidates()[0].1, d, cand_old[ci].1)),
{
    let qx = step_x(x, d);
    let qy = step_y(y, d);
    let q = g.cell(qx, qy);
    let t = g.cell(x, y).candidates()[0].1;
    assert(g.adj_ok(x, y, d));
    assert(all_compatible(t, d, q));
    assert forall|ci: int|
        0 <= ci < cand_old.len() implies (q.candidates().contains(#[trigger] cand_old[ci]) <==> compatible(
        t,
        d,
        cand_old[ci].1,
    )) by {
        let c = cand_old[ci];
        if q.candidates().contains(c) {
            let m = choose|m: int| 0 <= m < q.candidates().len() && q.candidates()[m] == c;
            assert(compatible(t, d, q.candidates()[m].1));
        }
        if compatible(t, d, c.1) {
            crate::grid::lemma_step_roundtrip(x, y, d);
            assert forall|d2: Direction| #[trigger] supported_toward(g, qx, qy, d2, c.1) by {
                if g.in_bounds(step_x(qx, d2), step_y(qy, d2)) {
                    assert(d2 == opp(d));
                    assert(step_x(qx, d2) == x && step_y(qy, d2) == y);
                    assert(g.cell(x, y).candidates()[0].1.label(opp(opp(d))) == c.1.label(opp(d)));
                }
            }
            assert(supported(g, qx, qy, c.1));
        }
    }
}

/// Adjacency consistency on full collapse: once every cell is resolved, a
/// cell and its neighbour one step along `d` carry equal connector labels
/// on the shared edge.
pub proof fn lemma_full_collapse_adjacency(g: Grid, x: int, y: int, d: Direction)
    requires
        g.wf(),
        g.1 == g.width() * g.height(),
        g.in_bounds(x, y),
        g.in_bounds(step_x(x, d), step_y(y, d)),
    ensures
        !g.cell(x, y).is_open(),
        !g.cell(step_x(x, d), step_y(y, d)).is_open(),
        compatible(
            g.cell(x, y).candidates()[0].1,
            d,
            g.cell(step_x(x, d), step_y(y, d)).candidates()[0].1,
        ),
{
    lemma_grid_resolved_bounds(g);
    assert(g.adj_ok(x, y, d));
    let q = g.cell(step_x(x, d), step_y(y, d));
    match g.cell(x, y) {
        Tile::Collapsed(name, rules) => {
            assert(all_compatible(rules, d, q));
            assert(compatible(rules, d, q.candidates()[0].1));
        },
        Tile::Wave(_) => {
            assert(false);
        },
    }
}

} // verus!
