//! The grid that owns the cells and runs the algorithm: entropy-based cell
//! selection, weighted collapse, and constraint propagation.

use crate::random::RandomSource;
use crate::tiles::compatible;
use crate::tiles::keeps;
use crate::tiles::opp;
use crate::tiles::ConnectionRules;
use crate::tiles::Direction;
use crate::tiles::Tile;
use crate::tiles::TileCollection;
use crate::tiles::WfcError;
use vstd::prelude::*;

verus! {

/// The x coordinate one step along `d`.
pub open spec fn step_x(x: int, d: Direction) -> int {
    match d {
        Direction::Left => x - 1,
        Direction::Right => x + 1,
        Direction::Up => x,
        Direction::Down => x,
    }
}

/// The y coordinate one step along `d`.
pub open spec fn step_y(y: int, d: Direction) -> int {
    match d {
        Direction::Left => y,
        Direction::Right => y,
        Direction::Up => y + 1,
        Direction::Down => y - 1,
    }
}

/// 1 for a resolved cell, 0 for an open one.
pub open spec fn resolved_bit(t: Tile) -> nat {
    if t.is_open() {
        0
    } else {
        1
    }
}

/// How many cells of the row are resolved.
pub open spec fn row_resolved(row: Seq<Tile>) -> nat
    decreases row.len(),
{
    if row.len() == 0 {
        0
    } else {
        (row_resolved(row.drop_last()) + resolved_bit(row.last())) as nat
    }
}

/// How many cells of the whole grid are resolved.
pub open spec fn rows_resolved(rows: Seq<Vec<Tile>>) -> nat
    decreases rows.len(),
{
    if rows.len() == 0 {
        0
    } else {
        (rows_resolved(rows.drop_last()) + row_resolved(rows.last()@)) as nat
    }
}

/// How much an open cell still has to lose: its candidate count.
pub open spec fn cell_load(t: Tile) -> nat {
    if t.is_open() {
        t.candidates().len()
    } else {
        0
    }
}

/// The candidate counts of a row's open cells, added up.
pub open spec fn row_load(row: Seq<Tile>) -> nat
    decreases row.len(),
{
    if row.len() == 0 {
        0
    } else {
        (row_load(row.drop_last()) + cell_load(row.last())) as nat
    }
}

/// The candidate counts of the whole grid's open cells, added up: the
/// measure that shrinks whenever propagation removes a candidate.
pub open spec fn rows_load(rows: Seq<Vec<Tile>>) -> nat
    decreases rows.len(),
{
    if rows.len() == 0 {
        0
    } else {
        (rows_load(rows.drop_last()) + row_load(rows.last()@)) as nat
    }
}

/// How one cell relates to itself a narrowing step later: resolved cells do
/// not change at all, open cells stay open and only lose candidates.
pub open spec fn narrows(a: Tile, b: Tile) -> bool {
    &&& b.is_open() == a.is_open()
    &&& (!a.is_open() ==> b == a)
    &&& (a.is_open() ==> b.candidates().len() <= a.candidates().len() && (forall|i: int|
        0 <= i < b.candidates().len() ==> a.candidates().contains(#[trigger] b.candidates()[i])))
}

/// How one cell relates to itself any number of ticks later: a resolved
/// cell is final; an open cell either narrows or resolves to one of its own
/// candidates.
pub open spec fn cell_evolves(a: Tile, b: Tile) -> bool {
    if !a.is_open() {
        b == a
    } else if b.is_open() {
        narrows(a, b)
    } else {
        a.candidates().contains(b.candidates()[0])
    }
}

/// Same dimensions, same counter, same cell values: how a call that
/// changed nothing observable relates the grid to itself.
pub open spec fn same_grid(g1: Grid, g2: Grid) -> bool {
    &&& g2.width() == g1.width()
    &&& g2.height() == g1.height()
    &&& forall|i: int| 0 <= i < g1.0@.len() ==> (#[trigger] g2.0@[i])@.len() == g1.0@[i]@.len()
    &&& g2.1 == g1.1
    &&& forall|i: int, j: int| g1.in_bounds(i, j) ==> #[trigger] g2.cell(i, j) == g1.cell(i, j)
}

/// Every candidate of `t` may sit next to the resolved rules `r`, where `t`
/// stands one step along `d` from the cell that `r` resolved.
pub open spec fn all_compatible(r: ConnectionRules, d: Direction, t: Tile) -> bool {
    forall|i: int|
        0 <= i < t.candidates().len() ==> compatible(r, d, (#[trigger] t.candidates()[i]).1)
}

/// Some candidate of the cell `t` shows label `lab` on its edge `d`.
pub open spec fn shows_label(t: Tile, d: Direction, lab: Seq<char>) -> bool {
    exists|m: int|
        0 <= m < t.candidates().len() && (#[trigger] t.candidates()[m]).1.label(d) == lab
}

/// A tile with rules `c` placed at (x, y) still has a partner toward `d`:
/// either there is no neighbour that way, or the neighbour shows the
/// matching label back.
pub open spec fn supported_toward(
    g: Grid,
    x: int,
    y: int,
    d: Direction,
    c: ConnectionRules,
) -> bool {
    g.in_bounds(step_x(x, d), step_y(y, d)) ==> shows_label(
        g.cell(step_x(x, d), step_y(y, d)),
        opp(d),
        c.label(d),
    )
}

/// A tile with rules `c` placed at (x, y) is compatible with at least one
/// remaining candidate of each of its neighbours: the condition under which
/// propagation is never allowed to remove it.
pub open spec fn supported(g: Grid, x: int, y: int, c: ConnectionRules) -> bool {
    forall|d: Direction| #[trigger] supported_toward(g, x, y, d, c)
}

/// A candidate supported by the narrowed grid was supported before the
/// narrowing too.
proof fn lemma_supported_narrows(g1: Grid, g2: Grid, x: int, y: int, c: ConnectionRules)
    requires
        g1.width() == g2.width(),
        g1.height() == g2.height(),
        forall|i: int, j: int|
            g1.in_bounds(i, j) ==> narrows(#[trigger] g1.cell(i, j), g2.cell(i, j)),
        supported(g2, x, y, c),
    ensures
        supported(g1, x, y, c),
{
    assert forall|d: Direction| #[trigger] supported_toward(g1, x, y, d, c) by {
        let nx = step_x(x, d);
        let ny = step_y(y, d);
        if g1.in_bounds(nx, ny) {
            assert(supported_toward(g2, x, y, d, c));
            let m = choose|m: int|
                0 <= m < g2.cell(nx, ny).candidates().len() && (#[trigger] g2.cell(
                    nx,
                    ny,
                ).candidates()[m]).1.label(opp(d)) == c.label(d);
            assert(narrows(g1.cell(nx, ny), g2.cell(nx, ny)));
            if g1.cell(nx, ny).is_open() {
                assert(g1.cell(nx, ny).candidates().contains(g2.cell(nx, ny).candidates()[m]));
                let k = choose|k: int|
                    0 <= k < g1.cell(nx, ny).candidates().len() && g1.cell(nx, ny).candidates()[k]
                        == g2.cell(nx, ny).candidates()[m];
                assert(g1.cell(nx, ny).candidates()[k].1.label(opp(d)) == c.label(d));
            }
        }
    }
}

/// A rectangular field of cells, resolved one per tick, plus the running
/// count of resolved cells.
#[derive(Debug)]
pub struct Grid(pub Vec<Vec<Tile>>, pub usize);

impl Grid {
    /// Number of columns.
    pub open spec fn width(self) -> nat {
        self.0@.len()
    }

    /// Number of cells per column.
    pub open spec fn height(self) -> nat {
        if self.0@.len() == 0 {
            0
        } else {
            self.0@[0]@.len()
        }
    }

    pub open spec fn cell(self, x: int, y: int) -> Tile {
        self.0@[x]@[y]
    }

    pub open spec fn in_bounds(self, x: int, y: int) -> bool {
        0 <= x < self.width() && 0 <= y < self.height()
    }

    /// Every column holds `height` cells.
    pub open spec fn dims_ok(self) -> bool {
        forall|x: int| 0 <= x < self.0@.len() ==> (#[trigger] self.0@[x])@.len() == self.height()
    }

    pub open spec fn cells_wf(self) -> bool {
        forall|x: int, y: int| self.in_bounds(x, y) ==> (#[trigger] self.cell(x, y)).wf()
    }

    /// If the cell at (x, y) is resolved and has a neighbour one step along
    /// `d`, every candidate of that neighbour is compatible with the
    /// resolved rules.
    pub open spec fn adj_ok(self, x: int, y: int, d: Direction) -> bool {
        match self.cell(x, y) {
            Tile::Collapsed(name, rules) => self.in_bounds(step_x(x, d), step_y(y, d))
                ==> all_compatible(rules, d, self.cell(step_x(x, d), step_y(y, d))),
            Tile::Wave(_) => true,
        }
    }

    /// Every resolved cell has already constrained all its neighbours.
    pub open spec fn inv_adjacent(self) -> bool {
        forall|x: int, y: int, d: Direction|
            self.in_bounds(x, y) ==> #[trigger] self.adj_ok(x, y, d)
    }

    /// As `inv_adjacent`, except that nothing is asked of the cell at
    /// (ox, oy): the state right after a collapse, before propagation.
    pub open spec fn inv_adjacent_except(self, ox: int, oy: int) -> bool {
        forall|x: int, y: int, d: Direction|
            self.in_bounds(x, y) && !(x == ox && y == oy) ==> #[trigger] self.adj_ok(x, y, d)
    }

    /// Rectangular, well-formed cells, an accurate resolved counter, and a
    /// cell count that fits the machine word.
    pub open spec fn base_wf(self) -> bool {
        &&& self.dims_ok()
        &&& self.cells_wf()
        &&& self.1 == rows_resolved(self.0@)
        &&& self.width() * self.height() <= usize::MAX
    }

    /// The grid invariant.
    pub open spec fn wf(self) -> bool {
        self.base_wf() && self.inv_adjacent()
    }

    /// All cells open with the full catalog: the state a fresh grid is in.
    pub fn new(tiles: TileCollection, width: usize, height: usize) -> (r: Grid)
        requires
            tiles.wf(),
            width * height <= usize::MAX,
        ensures
            r.wf(),
            r.width() == width,
            r.0@.len() == width,
            forall|x: int| 0 <= x < width ==> (#[trigger] r.0@[x])@.len() == height,
            width > 0 ==> r.height() == height,
            r.1 == 0,
            forall|x: int, y: int|
                r.in_bounds(x, y) ==> (#[trigger] r.cell(x, y)).is_open() && r.cell(x, y).candidates()
                    == tiles.0@,
    {
        let mut cols: Vec<Vec<Tile>> = Vec::new();
        let mut x: usize = 0;
        while x < width
            invariant
                x <= width,
                cols@.len() == x,
                forall|i: int| 0 <= i < x ==> (#[trigger] cols@[i])@.len() == height,
                forall|i: int, j: int|
                    0 <= i < x && 0 <= j < height ==> (#[trigger] cols@[i]@[j]).is_open()
                        && cols@[i]@[j].candidates() == tiles.0@,
                tiles.wf(),
            decreases width - x,
        {
            let mut col: Vec<Tile> = Vec::new();
            let mut y: usize = 0;
            while y < height
                invariant
                    y <= height,
                    col@.len() == y,
                    forall|j: int|
                        0 <= j < y ==> (#[trigger] col@[j]).is_open() && col@[j].candidates()
                            == tiles.0@,
                    tiles.wf(),
                decreases height - y,
            {
                col.push(Tile::Wave(tiles.duplicate()));
                y += 1;
            }
            cols.push(col);
            x += 1;
        }
        let g = Grid(cols, 0);
        proof {
            lemma_rows_resolved_all_open(g.0@);
            assert forall|x: int, y: int, d: Direction|
                g.in_bounds(x, y) implies #[trigger] g.adj_ok(x, y, d) by {
                assert(g.cell(x, y).is_open());
            }
        }
        g
    }

    /// Narrows the cell at (nx, ny) against the labels `allowed` shown
    /// toward it: the cell keeps only candidates whose edge `dir` carries
    /// one of those labels.
    fn retain_at(&mut self, nx: usize, ny: usize, dir: &Direction, allowed: &Vec<String>) -> (changed: bool)
        requires
            old(self).dims_ok(),
            old(self).cells_wf(),
            old(self).in_bounds(nx as int, ny as int),
        ensures
            final(self).width() == old(self).width(),
            final(self).height() == old(self).height(),
            final(self).dims_ok(),
            final(self).cells_wf(),
            final(self).1 == old(self).1,
            rows_resolved(final(self).0@) == rows_resolved(old(self).0@),
            forall|i: int, j: int|
                old(self).in_bounds(i, j) && !(i == nx && j == ny) ==> final(self).cell(i, j)
                    == old(self).cell(i, j),
            narrows(old(self).cell(nx as int, ny as int), final(self).cell(nx as int, ny as int)),
            old(self).cell(nx as int, ny as int).is_open() ==> final(self).cell(
                nx as int,
                ny as int,
            ).candidates() == old(self).cell(nx as int, ny as int).candidates().filter(
                keeps(allowed@, *dir),
            ),
            !old(self).cell(nx as int, ny as int).is_open() ==> final(self).cell(
                nx as int,
                ny as int,
            ) == old(self).cell(nx as int, ny as int),
            changed == (final(self).cell(nx as int, ny as int).candidates().len() != old(
                self,
            ).cell(nx as int, ny as int).candidates().len()),
            rows_load(final(self).0@) <= rows_load(old(self).0@),
            changed ==> rows_load(final(self).0@) < rows_load(old(self).0@),
            !changed ==> rows_load(final(self).0@) == rows_load(old(self).0@),
    {
        let ghost g0 = *self;
        let changed = self.0[nx][ny].retain_if_labels_match(dir, allowed);
        proof {
            let oldc = g0.cell(nx as int, ny as int);
            let newc = self.cell(nx as int, ny as int);
            let pred = keeps(allowed@, *dir);
            // how the cell narrowed
            if oldc.is_open() {
                oldc.candidates().lemma_filter_len(pred);
                assert forall|i: int|
                    0 <= i < newc.candidates().len() implies oldc.candidates().contains(
                    #[trigger] newc.candidates()[i]) by {
                    crate::tiles::lemma_filter_element_of(oldc.candidates(), pred, i);
                }
            }
            assert(narrows(oldc, newc));
            // the grid is the old grid with one cell replaced
            assert(self.0@ =~= g0.0@.update(nx as int, self.0@[nx as int]));
            assert(self.0@[nx as int]@ =~= g0.0@[nx as int]@.update(ny as int, newc));
            lemma_rows_resolved_update(g0.0@, nx as int, self.0@[nx as int]);
            lemma_row_resolved_update(g0.0@[nx as int]@, ny as int, newc);
            lemma_rows_load_update(g0.0@, nx as int, self.0@[nx as int]);
            lemma_row_load_update(g0.0@[nx as int]@, ny as int, newc);
            // the new cell is still well-formed
            if oldc.is_open() {
                crate::tiles::lemma_total_weight_filter(oldc.candidates(), pred);
                crate::tiles::lemma_filter_distinct_names(oldc.candidates(), pred);
                assert forall|i: int|
                    0 <= i < newc.candidates().len() implies 1 <= (
                #[trigger] newc.candidates()[i]).1.weight by {
                    let j = choose|j: int|
                        0 <= j < oldc.candidates().len() && oldc.candidates()[j]
                            == newc.candidates()[i];
                    assert(1 <= oldc.candidates()[j].1.weight);
                }
            }
            assert(newc.wf());
            assert forall|i: int, j: int|
                self.in_bounds(i, j) implies (#[trigger] self.cell(i, j)).wf() by {
                if !(i == nx && j == ny) {
                    assert(self.cell(i, j) == g0.cell(i, j));
                }
            }
        }
        changed
    }

    /// Applies the constraint of the cell at (cx, cy) to each of its open
    /// neighbours: a neighbour keeps only candidates whose facing edge
    /// matches a label the cell shows toward it. Reports the neighbours
    /// that actually shrank.
    fn constrain_neighbours(&mut self, cx: usize, cy: usize) -> (out: Vec<(usize, usize)>)
        requires
            old(self).dims_ok(),
            old(self).cells_wf(),
            old(self).in_bounds(cx as int, cy as int),
        ensures
            final(self).width() == old(self).width(),
            final(self).height() == old(self).height(),
            final(self).dims_ok(),
            final(self).cells_wf(),
            final(self).1 == old(self).1,
            rows_resolved(final(self).0@) == rows_resolved(old(self).0@),
            forall|i: int, j: int|
                old(self).in_bounds(i, j) ==> narrows(
                    #[trigger] old(self).cell(i, j),
                    final(self).cell(i, j),
                ),
            rows_load(final(self).0@) <= rows_load(old(self).0@),
            out@.len() > 0 ==> rows_load(final(self).0@) < rows_load(old(self).0@),
            out@.len() == 0 ==> rows_load(final(self).0@) == rows_load(old(self).0@),
            forall|k: int|
                0 <= k < out@.len() ==> old(self).in_bounds(
                    (#[trigger] out@[k]).0 as int,
                    out@[k].1 as int,
                ),
            old(self).inv_adjacent_except(cx as int, cy as int) ==> final(self).inv_adjacent(),
            forall|i: int, j: int, ci: int|
                old(self).in_bounds(i, j) && old(self).cell(i, j).is_open() && 0 <= ci < old(
                    self,
                ).cell(i, j).candidates().len() && supported(
                    *final(self),
                    i,
                    j,
                    (#[trigger] old(self).cell(i, j).candidates()[ci]).1,
                ) ==> final(self).cell(i, j).candidates().contains(
                    old(self).cell(i, j).candidates()[ci],
                ),
    {
        let ns = self.get_neighbours(cx, cy);
        let ghost g0 = *self;
        let mut out: Vec<(usize, usize)> = Vec::new();
        let mut k: usize = 0;
        proof {
            assert forall|i: int, j: int, ci: int|
                g0.in_bounds(i, j) && g0.cell(i, j).is_open() && 0 <= ci < g0.cell(
                    i,
                    j,
                ).candidates().len() && supported(
                    *self,
                    i,
                    j,
                    (#[trigger] g0.cell(i, j).candidates()[ci]).1,
                ) implies self.cell(i, j).candidates().contains(g0.cell(i, j).candidates()[ci]) by {
                assert(self.cell(i, j).candidates()[ci] == g0.cell(i, j).candidates()[ci]);
            }
        }
        while k < ns.len()
            invariant
                k <= ns@.len(),
                g0.dims_ok(),
                g0.cells_wf(),
                g0.in_bounds(cx as int, cy as int),
                self.width() == g0.width(),
                self.height() == g0.height(),
                self.dims_ok(),
                self.cells_wf(),
                self.1 == g0.1,
                rows_resolved(self.0@) == rows_resolved(g0.0@),
                forall|i: int, j: int|
                    g0.in_bounds(i, j) ==> narrows(#[trigger] g0.cell(i, j), self.cell(i, j)),
                self.cell(cx as int, cy as int) == g0.cell(cx as int, cy as int),
                rows_load(self.0@) <= rows_load(g0.0@),
                out@.len() > 0 ==> rows_load(self.0@) < rows_load(g0.0@),
                out@.len() == 0 ==> rows_load(self.0@) == rows_load(g0.0@),
                forall|m: int|
                    0 <= m < out@.len() ==> g0.in_bounds(
                        (#[trigger] out@[m]).0 as int,
                        out@[m].1 as int,
                    ),
                g0.inv_adjacent_except(cx as int, cy as int) ==> self.inv_adjacent_except(
                    cx as int,
                    cy as int,
                ),
                forall|m: int|
                    0 <= m < ns@.len() ==> {
                        let e = #[trigger] ns@[m];
                        &&& g0.in_bounds(e.0 as int, e.1 as int)
                        &&& g0.cell(e.0 as int, e.1 as int).is_open()
                        &&& e.0 == step_x(cx as int, opp(e.2))
                        &&& e.1 == step_y(cy as int, opp(e.2))
                    },
                !g0.cell(cx as int, cy as int).is_open() ==> forall|m: int|
                    0 <= m < k ==> all_compatible(
                        g0.cell(cx as int, cy as int).candidates()[0].1,
                        opp((#[trigger] ns@[m]).2),
                        self.cell(ns@[m].0 as int, ns@[m].1 as int),
                    ),
                forall|i: int, j: int, ci: int|
                    g0.in_bounds(i, j) && g0.cell(i, j).is_open() && 0 <= ci < g0.cell(
                        i,
                        j,
                    ).candidates().len() && supported(
                        *self,
                        i,
                        j,
                        (#[trigger] g0.cell(i, j).candidates()[ci]).1,
                    ) ==> self.cell(i, j).candidates().contains(g0.cell(i, j).candidates()[ci]),
            decreases ns@.len() - k,
        {
            let e = ns[k];
            let nx = e.0;
            let ny = e.1;
            let dd = e.2.opposite();
            let sockets = self.0[cx][cy].get_sockets_for(&dd);
            proof {
                lemma_step_roundtrip(cx as int, cy as int, opp(e.2));
                assert((nx as int, ny as int) != (cx as int, cy as int));
            }
            let ghost gp = *self;
            let changed = self.retain_at(nx, ny, &e.2, &sockets);
            if changed {
                out.push((nx, ny));
            }
            proof {
                let src = g0.cell(cx as int, cy as int);
                // every cell narrowed in this step (most stayed equal)
                assert forall|i: int, j: int|
                    gp.in_bounds(i, j) implies narrows(#[trigger] gp.cell(i, j), self.cell(i, j)) by {
                    if !(i == nx && j == ny) {
                        assert(self.cell(i, j) == gp.cell(i, j));
                        lemma_narrows_refl(gp.cell(i, j));
                    }
                }
                // so narrowing from the start still holds
                assert forall|i: int, j: int|
                    g0.in_bounds(i, j) implies narrows(#[trigger] g0.cell(i, j), self.cell(i, j)) by {
                    lemma_narrows_trans(g0.cell(i, j), gp.cell(i, j), self.cell(i, j));
                }
                // and the partial invariant survives
                if g0.inv_adjacent_except(cx as int, cy as int) {
                    lemma_inv_except_narrows(gp, *self, cx as int, cy as int);
                }
                // a candidate the final neighbourhood still supports was kept
                assert forall|i: int, j: int, ci: int|
                    g0.in_bounds(i, j) && g0.cell(i, j).is_open() && 0 <= ci < g0.cell(
                        i,
                        j,
                    ).candidates().len() && supported(
                        *self,
                        i,
                        j,
                        (#[trigger] g0.cell(i, j).candidates()[ci]).1,
                    ) implies self.cell(i, j).candidates().contains(
                    g0.cell(i, j).candidates()[ci],
                ) by {
                    let c = g0.cell(i, j).candidates()[ci];
                    lemma_supported_narrows(gp, *self, i, j, c.1);
                    assert(gp.cell(i, j).candidates().contains(c));
                    if i == nx && j == ny {
                        let oldcands = gp.cell(i, j).candidates();
                        let ki = choose|ki: int|
                            0 <= ki < oldcands.len() && oldcands[ki] == c;
                        let pred = crate::tiles::keeps(sockets@, e.2);
                        // the source still shows a label that matches c
                        lemma_step_roundtrip(cx as int, cy as int, opp(e.2));
                        assert(supported_toward(*self, i, j, e.2, c.1));
                        assert(self.cell(cx as int, cy as int) == g0.cell(cx as int, cy as int));
                        let m = choose|m: int|
                            0 <= m < self.cell(cx as int, cy as int).candidates().len() && (
                            #[trigger] self.cell(cx as int, cy as int).candidates()[m]).1.label(
                                opp(e.2),
                            ) == c.1.label(e.2);
                        assert(sockets@[m]@ == c.1.label(e.2));
                        assert(crate::tiles::contains_label(sockets@, c.1.label(e.2)));
                        assert(pred(c));
                        oldcands.lemma_filter_contains(pred, ki);
                        assert(self.cell(i, j).candidates() == oldcands.filter(pred));
                    } else {
                        assert(self.cell(i, j) == gp.cell(i, j));
                    }
                }
                // a resolved source constrains the neighbour it just filtered
                if !src.is_open() {
                    let rules = src.candidates()[0].1;
                    lemma_step_roundtrip(cx as int, cy as int, opp(e.2));
                    if gp.cell(nx as int, ny as int).is_open() {
                        let oldcands = gp.cell(nx as int, ny as int).candidates();
                        let newcands = self.cell(nx as int, ny as int).candidates();
                        let pred = crate::tiles::keeps(sockets@, e.2);
                        assert(newcands == oldcands.filter(pred));
                        assert forall|i: int|
                            0 <= i < newcands.len() implies compatible(
                            rules,
                            opp(e.2),
                            (#[trigger] newcands[i]).1,
                        ) by {
                            oldcands.lemma_filter_pred(pred, i);
                            assert(crate::tiles::contains_label(
                                sockets@,
                                newcands[i].1.label(e.2),
                            ));
                            let si = choose|si: int|
                                0 <= si < sockets@.len() && sockets@[si]@ == newcands[i].1.label(
                                    e.2,
                                );
                            assert(sockets@[si]@ == src.candidates()[si].1.label(opp(e.2)));
                        }
                        assert(all_compatible(rules, opp(e.2), self.cell(nx as int, ny as int)));
                    }
                    // earlier neighbours only narrowed since
                    assert forall|m: int|
                        0 <= m < k + 1 implies all_compatible(
                        rules,
                        opp((#[trigger] ns@[m]).2),
                        self.cell(ns@[m].0 as int, ns@[m].1 as int),
                    ) by {
                        if m < k {
                            lemma_all_compatible_narrows(
                                rules,
                                opp(ns@[m].2),
                                gp.cell(ns@[m].0 as int, ns@[m].1 as int),
                                self.cell(ns@[m].0 as int, ns@[m].1 as int),
                            );
                        }
                    }
                }
            }
            k += 1;
        }
        proof {
            if g0.inv_adjacent_except(cx as int, cy as int) {
                let src = g0.cell(cx as int, cy as int);
                assert forall|x: int, y: int, d: Direction|
                    self.in_bounds(x, y) implies #[trigger] self.adj_ok(x, y, d) by {
                    if x == cx && y == cy {
                        match self.cell(x, y) {
                            Tile::Collapsed(name, rules) => {
                                let qx = step_x(x, d);
                                let qy = step_y(y, d);
                                if self.in_bounds(qx, qy) {
                                    lemma_step_roundtrip(x, y, d);
                                    assert(rules == src.candidates()[0].1);
                                    if g0.cell(qx, qy).is_open() {
                                        // the neighbour was filtered in this very loop
                                        let q = (qx as usize, qy as usize, opp(d));
                                        match d {
                                            Direction::Right => assert(ns@.contains(q)),
                                            Direction::Up => assert(ns@.contains(q)),
                                            Direction::Left => assert(ns@.contains(q)),
                                            Direction::Down => assert(ns@.contains(q)),
                                        }
                                        let m = choose|m: int|
                                            0 <= m < ns@.len() && ns@[m] == q;
                                        assert(all_compatible(
                                            rules,
                                            opp(ns@[m].2),
                                            self.cell(ns@[m].0 as int, ns@[m].1 as int),
                                        ));
                                        assert(opp(ns@[m].2) == d);
                                    } else {
                                        // a resolved neighbour was constrained the other
                                        // way round when it resolved
                                        assert(self.cell(qx, qy) == g0.cell(qx, qy));
                                        assert(g0.adj_ok(qx, qy, opp(d)));
                                        let rq = g0.cell(qx, qy).candidates()[0].1;
                                        assert(compatible(rq, opp(d), rules));
                                        lemma_compatible_symmetric(rq, opp(d), rules);
                                        assert(compatible(rules, d, rq));
                                    }
                                }
                            },
                            Tile::Wave(_) => {},
                        }
                    } else {
                        assert(self.adj_ok(x, y, d));
                    }
                }
            }
        }
        out
    }

    /// Collapses the cell at (x, y) in place, leaving every other cell and
    /// the counter alone.
    fn collapse_at<R: RandomSource>(&mut self, x: usize, y: usize, rng: &mut R) -> (r: Result<
        (String, ConnectionRules),
        WfcError,
    >)
        requires
            old(self).dims_ok(),
            old(self).cells_wf(),
            old(self).in_bounds(x as int, y as int),
        ensures
            final(self).width() == old(self).width(),
            final(self).height() == old(self).height(),
            final(self).dims_ok(),
            final(self).cells_wf(),
            final(self).1 == old(self).1,
            forall|i: int, j: int|
                old(self).in_bounds(i, j) && !(i == x && j == y) ==> final(self).cell(i, j) == old(
                    self,
                ).cell(i, j),
            match r {
                Ok(picked) => {
                    &&& old(self).cell(x as int, y as int).is_open()
                    &&& old(self).cell(x as int, y as int).candidates().contains(picked)
                    &&& final(self).cell(x as int, y as int) == Tile::Collapsed(picked.0, picked.1)
                    &&& rows_resolved(final(self).0@) == rows_resolved(old(self).0@) + 1
                },
                Err(e) => {
                    &&& final(self).cell(x as int, y as int) == old(self).cell(x as int, y as int)
                    &&& rows_resolved(final(self).0@) == rows_resolved(old(self).0@)
                    &&& (e == WfcError::AlreadyResolved <==> !old(self).cell(
                        x as int,
                        y as int,
                    ).is_open())
                    &&& (e == WfcError::EmptyWave <==> old(self).cell(x as int, y as int).is_open()
                        && old(self).cell(x as int, y as int).candidates().len() == 0)
                },
            },
            old(self).cell(x as int, y as int).is_open() && old(self).cell(
                x as int,
                y as int,
            ).candidates().len() > 0 ==> r is Ok,
    {
        let ghost g0 = *self;
        let r = self.0[x][y].collapse(rng);
        proof {
            let newc = self.cell(x as int, y as int);
            assert(self.0@ =~= g0.0@.update(x as int, self.0@[x as int]));
            assert(self.0@[x as int]@ =~= g0.0@[x as int]@.update(y as int, newc));
            lemma_rows_resolved_update(g0.0@, x as int, self.0@[x as int]);
            lemma_row_resolved_update(g0.0@[x as int]@, y as int, newc);
            assert forall|i: int, j: int|
                self.in_bounds(i, j) implies (#[trigger] self.cell(i, j)).wf() by {
                if !(i == x && j == y) {
                    assert(self.cell(i, j) == g0.cell(i, j));
                }
            }
        }
        r
    }

    /// Breadth-first constraint flood from the just-changed cell at (x, y):
    /// each dequeued cell constrains its open neighbours, and a neighbour
    /// that shrank is enqueued in turn, since its narrowing may constrain
    /// its own neighbours further. Terminates because candidate sets are
    /// finite and strictly shrink on every enqueue. Propagation only
    /// removes candidates — it never resolves a cell, so it cannot fail —
    /// and it removes only what lost support: a candidate compatible with
    /// some remaining candidate of each of its neighbours, as they finally
    /// stand, survives.
    pub fn propagate(&mut self, x: usize, y: usize)
        requires
            old(self).dims_ok(),
            old(self).cells_wf(),
            old(self).in_bounds(x as int, y as int),
            old(self).inv_adjacent_except(x as int, y as int),
        ensures
            final(self).width() == old(self).width(),
            final(self).height() == old(self).height(),
            final(self).dims_ok(),
            final(self).cells_wf(),
            final(self).1 == old(self).1,
            rows_resolved(final(self).0@) == rows_resolved(old(self).0@),
            forall|i: int, j: int|
                old(self).in_bounds(i, j) ==> narrows(
                    #[trigger] old(self).cell(i, j),
                    final(self).cell(i, j),
                ),
            final(self).inv_adjacent(),
            forall|i: int, j: int, ci: int|
                old(self).in_bounds(i, j) && old(self).cell(i, j).is_open() && 0 <= ci < old(
                    self,
                ).cell(i, j).candidates().len() && supported(
                    *final(self),
                    i,
                    j,
                    (#[trigger] old(self).cell(i, j).candidates()[ci]).1,
                ) ==> final(self).cell(i, j).candidates().contains(
                    old(self).cell(i, j).candidates()[ci],
                ),
    {
        let mut queue: Vec<(usize, usize)> = Vec::new();
        queue.push((x, y));
        let mut head: usize = 0;
        proof {
            assert forall|i: int, j: int, ci: int|
                old(self).in_bounds(i, j) && old(self).cell(i, j).is_open() && 0 <= ci < old(
                    self,
                ).cell(i, j).candidates().len() && supported(
                    *self,
                    i,
                    j,
                    (#[trigger] old(self).cell(i, j).candidates()[ci]).1,
                ) implies self.cell(i, j).candidates().contains(
                old(self).cell(i, j).candidates()[ci],
            ) by {
                assert(self.cell(i, j).candidates()[ci] == old(self).cell(i, j).candidates()[ci]);
            }
        }
        while head < queue.len()
            invariant
                head <= queue@.len(),
                old(self).dims_ok(),
                old(self).cells_wf(),
                old(self).in_bounds(x as int, y as int),
                old(self).inv_adjacent_except(x as int, y as int),
                self.width() == old(self).width(),
                self.height() == old(self).height(),
                self.dims_ok(),
                self.cells_wf(),
                self.1 == old(self).1,
                rows_resolved(self.0@) == rows_resolved(old(self).0@),
                forall|i: int, j: int|
                    old(self).in_bounds(i, j) ==> narrows(
                        #[trigger] old(self).cell(i, j),
                        self.cell(i, j),
                    ),
                forall|m: int|
                    0 <= m < queue@.len() ==> old(self).in_bounds(
                        (#[trigger] queue@[m]).0 as int,
                        queue@[m].1 as int,
                    ),
                head == 0 ==> queue@.len() == 1 && queue@[0] == (x, y) && *self == *old(self),
                head >= 1 ==> self.inv_adjacent(),
                forall|i: int, j: int, ci: int|
                    old(self).in_bounds(i, j) && old(self).cell(i, j).is_open() && 0 <= ci < old(
                        self,
                    ).cell(i, j).candidates().len() && supported(
                        *self,
                        i,
                        j,
                        (#[trigger] old(self).cell(i, j).candidates()[ci]).1,
                    ) ==> self.cell(i, j).candidates().contains(
                        old(self).cell(i, j).candidates()[ci],
                    ),
            decreases rows_load(self.0@), queue@.len() - head,
        {
            let cur = queue[head];
            proof {
                if head >= 1 {
                    assert forall|i: int, j: int, d: Direction|
                        self.in_bounds(i, j) && !(i == cur.0 && j == cur.1) implies
                        #[trigger] self.adj_ok(i, j, d) by {
                        assert(self.adj_ok(i, j, d));
                    }
                }
            }
            let ghost gp = *self;
            let adds = self.constrain_neighbours(cur.0, cur.1);
            proof {
                assert forall|i: int, j: int|
                    old(self).in_bounds(i, j) implies narrows(
                    #[trigger] old(self).cell(i, j),
                    self.cell(i, j),
                ) by {
                    lemma_narrows_trans(old(self).cell(i, j), gp.cell(i, j), self.cell(i, j));
                }
                assert forall|i: int, j: int, ci: int|
                    old(self).in_bounds(i, j) && old(self).cell(i, j).is_open() && 0 <= ci < old(
                        self,
                    ).cell(i, j).candidates().len() && supported(
                        *self,
                        i,
                        j,
                        (#[trigger] old(self).cell(i, j).candidates()[ci]).1,
                    ) implies self.cell(i, j).candidates().contains(
                    old(self).cell(i, j).candidates()[ci],
                ) by {
                    let c = old(self).cell(i, j).candidates()[ci];
                    lemma_supported_narrows(gp, *self, i, j, c.1);
                    assert(gp.cell(i, j).candidates().contains(c));
                    let ki = choose|ki: int|
                        0 <= ki < gp.cell(i, j).candidates().len() && gp.cell(i, j).candidates()[ki]
                            == c;
                    assert(gp.cell(i, j).candidates()[ki] == c);
                }
            }
            let ghost q0 = queue@.len();
            let mut a: usize = 0;
            while a < adds.len()
                invariant
                    a <= adds@.len(),
                    queue@.len() == q0 + a,
                    forall|m: int|
                        0 <= m < adds@.len() ==> old(self).in_bounds(
                            (#[trigger] adds@[m]).0 as int,
                            adds@[m].1 as int,
                        ),
                    forall|m: int|
                        0 <= m < queue@.len() ==> old(self).in_bounds(
                            (#[trigger] queue@[m]).0 as int,
                            queue@[m].1 as int,
                        ),
                decreases adds@.len() - a,
            {
                queue.push(adds[a]);
                a += 1;
            }
            head += 1;
        }
    }

    /// One generation step restricted to the rectangle
    /// `x_lo..x_hi` × `y_lo..y_hi`: finds the lowest-entropy open cell
    /// there, collapses it, floods the constraint outward (the flood is
    /// *not* restricted to the rectangle), bumps the resolved counter, and
    /// reports the resolved cell. `Ok(None)` when the rectangle holds no
    /// open cell; `EmptyWave` when the cell to resolve has no candidate
    /// left — the unrecovered contradiction; `OutOfBounds` when the
    /// rectangle reaches outside the grid.
    pub fn tick_in_area<R: RandomSource>(
        &mut self,
        x_lo: usize,
        x_hi: usize,
        y_lo: usize,
        y_hi: usize,
        rng: &mut R,
    ) -> (r: Result<Option<(usize, usize, String)>, WfcError>)
        requires
            old(self).wf(),
        ensures
            final(self).wf(),
            final(self).width() == old(self).width(),
            final(self).height() == old(self).height(),
            forall|i: int, j: int|
                old(self).in_bounds(i, j) ==> cell_evolves(
                    #[trigger] old(self).cell(i, j),
                    final(self).cell(i, j),
                ),
            match r {
                Err(e) => same_grid(*old(self), *final(self)) && ((e == WfcError::OutOfBounds && (
                x_hi > old(self).width() || y_hi > old(self).height())) || (e == WfcError::EmptyWave
                    && x_hi <= old(self).width() && y_hi <= old(self).height() && (exists|
                    i: int,
                    j: int,
                |
                    in_region(i, j, x_lo as int, x_hi as int, y_lo as int, y_hi as int) && (
                    #[trigger] old(self).cell(i, j)).is_open() && old(self).cell(
                        i,
                        j,
                    ).candidates().len() == 0))),
                Ok(opt) => x_hi <= old(self).width() && y_hi <= old(self).height() && match opt {
                    None => same_grid(*old(self), *final(self)) && (forall|i: int, j: int|
                        in_region(i, j, x_lo as int, x_hi as int, y_lo as int, y_hi as int) ==> !(
                        #[trigger] old(self).cell(i, j)).is_open()),
                    Some(t) => {
                        &&& in_region(
                            t.0 as int,
                            t.1 as int,
                            x_lo as int,
                            x_hi as int,
                            y_lo as int,
                            y_hi as int,
                        )
                        &&& old(self).cell(t.0 as int, t.1 as int).is_open()
                        &&& !final(self).cell(t.0 as int, t.1 as int).is_open()
                        &&& final(self).cell(t.0 as int, t.1 as int).candidates()[0].0 == t.2
                        &&& old(self).cell(t.0 as int, t.1 as int).candidates().contains(
                            final(self).cell(t.0 as int, t.1 as int).candidates()[0],
                        )
                        &&& final(self).1 == old(self).1 + 1
                        &&& forall|i: int, j: int|
                            old(self).in_bounds(i, j) && !(i == t.0 && j == t.1) ==> narrows(
                                #[trigger] old(self).cell(i, j),
                                final(self).cell(i, j),
                            )
                        &&& forall|i: int, j: int, ci: int|
                            old(self).in_bounds(i, j) && !(i == t.0 && j == t.1) && old(self).cell(
                                i,
                                j,
                            ).is_open() && 0 <= ci < old(self).cell(i, j).candidates().len()
                                && supported(
                                *final(self),
                                i,
                                j,
                                (#[trigger] old(self).cell(i, j).candidates()[ci]).1,
                            ) ==> final(self).cell(i, j).candidates().contains(
                                old(self).cell(i, j).candidates()[ci],
                            )
                    },
                },
            },
            x_hi > old(self).width() || y_hi > old(self).height() ==> r == Err::<
                Option<(usize, usize, String)>,
                WfcError,
            >(WfcError::OutOfBounds),
            x_hi <= old(self).width() && y_hi <= old(self).height() && (exists|i: int, j: int|
                in_region(i, j, x_lo as int, x_hi as int, y_lo as int, y_hi as int) && (
                #[trigger] old(self).cell(i, j)).is_open() && old(self).cell(i, j).candidates().len()
                    == 0) ==> r == Err::<Option<(usize, usize, String)>, WfcError>(
                WfcError::EmptyWave,
            ),
            x_hi <= old(self).width() && y_hi <= old(self).height() && (exists|i: int, j: int|
                in_region(i, j, x_lo as int, x_hi as int, y_lo as int, y_hi as int) && (
                #[trigger] old(self).cell(i, j)).is_open()) && (forall|i: int, j: int|
                in_region(i, j, x_lo as int, x_hi as int, y_lo as int, y_hi as int) && (
                #[trigger] old(self).cell(i, j)).is_open() ==> old(self).cell(
                    i,
                    j,
                ).candidates().len() > 0) ==> r matches Ok(Some(_)),
    {
        let w = self.0.len();
        let h = if w == 0 {
            0
        } else {
            self.0[0].len()
        };
        if x_hi > w || y_hi > h {
            proof {
                assert forall|i: int, j: int|
                    old(self).in_bounds(i, j) implies cell_evolves(
                    #[trigger] old(self).cell(i, j),
                    self.cell(i, j),
                ) by {
                    lemma_cell_evolves_refl(old(self).cell(i, j));
                }
            }
            return Err(WfcError::OutOfBounds);
        }
        let found = self.find_lowest_entropy(x_lo, x_hi, y_lo, y_hi, rng);
        match found {
            None => {
                proof {
                    assert forall|i: int, j: int|
                        old(self).in_bounds(i, j) implies cell_evolves(
                        #[trigger] old(self).cell(i, j),
                        self.cell(i, j),
                    ) by {
                        lemma_cell_evolves_refl(old(self).cell(i, j));
                    }
                }
                Ok(None)
            },
            Some(p) => {
                let ghost g0 = *self;
                let res = self.collapse_at(p.0, p.1, rng);
                match res {
                    Err(e) => {
                        proof {
                            assert(e == WfcError::EmptyWave);
                            assert(g0.cell(p.0 as int, p.1 as int).candidates().len() == 0);
                            assert forall|i: int, j: int|
                                g0.in_bounds(i, j) implies #[trigger] self.cell(i, j) == g0.cell(
                                i,
                                j,
                            ) by {}
                            assert forall|i: int, j: int|
                                old(self).in_bounds(i, j) implies cell_evolves(
                                #[trigger] old(self).cell(i, j),
                                self.cell(i, j),
                            ) by {
                                lemma_cell_evolves_refl(old(self).cell(i, j));
                            }
                            assert forall|x: int, y: int, d: Direction|
                                self.in_bounds(x, y) implies #[trigger] self.adj_ok(x, y, d) by {
                                assert(g0.adj_ok(x, y, d));
                                assert(self.cell(x, y) == g0.cell(x, y));
                                if self.in_bounds(step_x(x, d), step_y(y, d)) {
                                    assert(self.cell(step_x(x, d), step_y(y, d)) == g0.cell(
                                        step_x(x, d),
                                        step_y(y, d),
                                    ));
                                }
                            }
                        }
                        Err(e)
                    },
                    Ok(picked) => {
                        let ghost g1 = *self;
                        proof {
                            lemma_grid_resolved_bounds(g0);
                        }
                        self.1 = self.1 + 1;
                        proof {
                            assert(self.0 == g1.0);
                            assert(self.dims_ok());
                            assert forall|i: int, j: int|
                                self.in_bounds(i, j) implies (#[trigger] self.cell(i, j)).wf() by {
                                assert(self.cell(i, j) == g1.cell(i, j));
                            }
                            assert forall|i: int, j: int, d: Direction|
                                self.in_bounds(i, j) && !(i == p.0 && j == p.1) implies
                                #[trigger] self.adj_ok(i, j, d) by {
                                assert(g0.adj_ok(i, j, d));
                                assert(self.cell(i, j) == g0.cell(i, j));
                                match self.cell(i, j) {
                                    Tile::Collapsed(name, rules) => {
                                        let qx = step_x(i, d);
                                        let qy = step_y(j, d);
                                        if self.in_bounds(qx, qy) {
                                            if qx == p.0 && qy == p.1 {
                                                assert(all_compatible(rules, d, g0.cell(qx, qy)));
                                                let c = choose|c: int|
                                                    0 <= c < g0.cell(qx, qy).candidates().len()
                                                        && g0.cell(qx, qy).candidates()[c] == picked;
                                                assert(compatible(
                                                    rules,
                                                    d,
                                                    g0.cell(qx, qy).candidates()[c].1,
                                                ));
                                            } else {
                                                assert(self.cell(qx, qy) == g0.cell(qx, qy));
                                            }
                                        }
                                    },
                                    Tile::Wave(_) => {},
                                }
                            }
                        }
                        let ghost g2 = *self;
                        self.propagate(p.0, p.1);
                        proof {
                            assert(narrows(
                                g2.cell(p.0 as int, p.1 as int),
                                self.cell(p.0 as int, p.1 as int),
                            ));
                            assert(g2.cell(p.0 as int, p.1 as int) == Tile::Collapsed(
                                picked.0,
                                picked.1,
                            ));
                            assert(self.cell(p.0 as int, p.1 as int) == Tile::Collapsed(
                                picked.0,
                                picked.1,
                            ));
                            assert forall|i: int, j: int|
                                old(self).in_bounds(i, j) && !(i == p.0 && j == p.1) implies
                                narrows(#[trigger] old(self).cell(i, j), self.cell(i, j)) by {
                                assert(narrows(g2.cell(i, j), self.cell(i, j)));
                                assert(g2.cell(i, j) == g1.cell(i, j));
                                assert(g1.cell(i, j) == g0.cell(i, j));
                            }
                            assert forall|i: int, j: int, ci: int|
                                old(self).in_bounds(i, j) && !(i == p.0 && j == p.1) && old(
                                    self,
                                ).cell(i, j).is_open() && 0 <= ci < old(self).cell(
                                    i,
                                    j,
                                ).candidates().len() && supported(
                                    *self,
                                    i,
                                    j,
                                    (#[trigger] old(self).cell(i, j).candidates()[ci]).1,
                                ) implies self.cell(i, j).candidates().contains(
                                old(self).cell(i, j).candidates()[ci],
                            ) by {
                                assert(g2.cell(i, j) == g1.cell(i, j));
                                assert(g1.cell(i, j) == g0.cell(i, j));
                                assert(g2.cell(i, j).candidates()[ci] == old(self).cell(
                                    i,
                                    j,
                                ).candidates()[ci]);
                            }
                            assert forall|i: int, j: int|
                                old(self).in_bounds(i, j) implies cell_evolves(
                                #[trigger] old(self).cell(i, j),
                                self.cell(i, j),
                            ) by {
                                assert(narrows(g2.cell(i, j), self.cell(i, j)));
                                if !(i == p.0 && j == p.1) {
                                    assert(g2.cell(i, j) == g1.cell(i, j));
                                    assert(g1.cell(i, j) == g0.cell(i, j));
                                    assert(narrows(g0.cell(i, j), self.cell(i, j)));
                                }
                            }
                        }
                        Ok(Some((p.0, p.1, picked.0)))
                    },
                }
            },
        }
    }

    /// One generation step over the full grid: equivalent to
    /// `tick_in_area` with the whole rectangle. `Ok(None)` exactly when
    /// generation is already complete.
    pub fn tick<R: RandomSource>(&mut self, rng: &mut R) -> (r: Result<
        Option<(usize, usize, String)>,
        WfcError,
    >)
        requires
            old(self).wf(),
        ensures
            final(self).wf(),
            final(self).width() == old(self).width(),
            final(self).height() == old(self).height(),
            forall|i: int, j: int|
                old(self).in_bounds(i, j) ==> cell_evolves(
                    #[trigger] old(self).cell(i, j),
                    final(self).cell(i, j),
                ),
            match r {
                Err(e) => e == WfcError::EmptyWave && same_grid(*old(self), *final(self)) && (
                exists|i: int, j: int|
                    old(self).in_bounds(i, j) && (#[trigger] old(self).cell(i, j)).is_open() && old(
                        self,
                    ).cell(i, j).candidates().len() == 0),
                Ok(opt) => match opt {
                    None => same_grid(*old(self), *final(self)) && old(self).1 == old(self).width()
                        * old(self).height(),
                    Some(t) => {
                        &&& old(self).in_bounds(t.0 as int, t.1 as int)
                        &&& old(self).cell(t.0 as int, t.1 as int).is_open()
                        &&& !final(self).cell(t.0 as int, t.1 as int).is_open()
                        &&& final(self).cell(t.0 as int, t.1 as int).candidates()[0].0 == t.2
                        &&& old(self).cell(t.0 as int, t.1 as int).candidates().contains(
                            final(self).cell(t.0 as int, t.1 as int).candidates()[0],
                        )
                        &&& final(self).1 == old(self).1 + 1
                        &&& forall|i: int, j: int|
                            old(self).in_bounds(i, j) && !(i == t.0 && j == t.1) ==> narrows(
                                #[trigger] old(self).cell(i, j),
                                final(self).cell(i, j),
                            )
                        &&& forall|i: int, j: int, ci: int|
                            old(self).in_bounds(i, j) && !(i == t.0 && j == t.1) && old(self).cell(
                                i,
                                j,
                            ).is_open() && 0 <= ci < old(self).cell(i, j).candidates().len()
                                && supported(
                                *final(self),
                                i,
                                j,
                                (#[trigger] old(self).cell(i, j).candidates()[ci]).1,
                            ) ==> final(self).cell(i, j).candidates().contains(
                                old(self).cell(i, j).candidates()[ci],
                            )
                    },
                },
            },
            old(self).1 < old(self).width() * old(self).height() && (forall|i: int, j: int|
                old(self).in_bounds(i, j) && (#[trigger] old(self).cell(i, j)).is_open() ==> old(
                    self,
                ).cell(i, j).candidates().len() > 0) ==> r matches Ok(Some(_)),
    {
        let w = self.0.len();
        let h = if w == 0 {
            0
        } else {
            self.0[0].len()
        };
        proof {
            lemma_grid_resolved_bounds(*self);
            if old(self).1 < old(self).width() * old(self).height() {
                assert(!(forall|x: int, y: int|
                    old(self).in_bounds(x, y) ==> !(#[trigger] old(self).cell(x, y)).is_open()));
                let (i, j) = choose|i: int, j: int|
                    old(self).in_bounds(i, j) && (#[trigger] old(self).cell(i, j)).is_open();
                assert(in_region(i, j, 0, w as int, 0, h as int) && old(self).cell(
                    i,
                    j,
                ).is_open());
            }
        }
        let r = self.tick_in_area(0, w, 0, h, rng);
        proof {
            if r matches Ok(None) {
                assert forall|x: int, y: int|
                    old(self).in_bounds(x, y) implies !(
                #[trigger] old(self).cell(x, y)).is_open() by {
                    assert(in_region(x, y, 0, w as int, 0, h as int));
                }
            }
        }
        r
    }

    /// Runs `tick` until every cell is resolved, reporting how many cells
    /// this call resolved, or surfaces the first contradiction. An N-cell
    /// grid with no contradiction takes exactly N successful ticks in all;
    /// failure is possible only while unresolved cells remain, and the grid
    /// it leaves behind exhibits the contradiction.
    pub fn collapse_all<R: RandomSource>(&mut self, rng: &mut R) -> (r: Result<usize, WfcError>)
        requires
            old(self).wf(),
        ensures
            final(self).wf(),
            final(self).width() == old(self).width(),
            final(self).height() == old(self).height(),
            forall|i: int, j: int|
                old(self).in_bounds(i, j) ==> cell_evolves(
                    #[trigger] old(self).cell(i, j),
                    final(self).cell(i, j),
                ),
            match r {
                Ok(n) => {
                    &&& n + old(self).1 == old(self).width() * old(self).height()
                    &&& final(self).1 == old(self).width() * old(self).height()
                    &&& forall|i: int, j: int|
                        old(self).in_bounds(i, j) ==> !(#[trigger] final(self).cell(i, j)).is_open()
                },
                Err(e) => {
                    &&& e == WfcError::EmptyWave
                    &&& old(self).1 < old(self).width() * old(self).height()
                    &&& exists|i: int, j: int|
                        final(self).in_bounds(i, j) && (#[trigger] final(self).cell(i, j)).is_open()
                            && final(self).cell(i, j).candidates().len() == 0
                },
            },
    {
        let w = self.0.len();
        let h = if w == 0 {
            0
        } else {
            self.0[0].len()
        };
        let total = w * h;
        let mut n: usize = 0;
        proof {
            assert forall|i: int, j: int|
                old(self).in_bounds(i, j) implies cell_evolves(
                #[trigger] old(self).cell(i, j),
                self.cell(i, j),
            ) by {
                lemma_cell_evolves_refl(old(self).cell(i, j));
            }
        }
        while self.1 != total
            invariant
                self.wf(),
                self.width() == old(self).width(),
                self.height() == old(self).height(),
                w == self.width(),
                h == self.height(),
                total == w * h,
                old(self).1 <= self.1,
                n + old(self).1 == self.1,
                forall|i: int, j: int|
                    old(self).in_bounds(i, j) ==> cell_evolves(
                        #[trigger] old(self).cell(i, j),
                        self.cell(i, j),
                    ),
            decreases w * h - self.1,
        {
            proof {
                lemma_grid_resolved_bounds(*self);
            }
            let ghost gp = *self;
            match self.tick(rng) {
                Ok(Some(_)) => {
                    n = n + 1;
                    proof {
                        assert forall|i: int, j: int|
                            old(self).in_bounds(i, j) implies cell_evolves(
                            #[trigger] old(self).cell(i, j),
                            self.cell(i, j),
                        ) by {
                            lemma_cell_evolves_trans(
                                old(self).cell(i, j),
                                gp.cell(i, j),
                                self.cell(i, j),
                            );
                        }
                    }
                },
                Ok(None) => {
                    proof {
                        assert(false);
                    }
                },
                Err(e) => {
                    proof {
                        assert forall|i: int, j: int|
                            old(self).in_bounds(i, j) implies cell_evolves(
                            #[trigger] old(self).cell(i, j),
                            self.cell(i, j),
                        ) by {
                            lemma_cell_evolves_trans(
                                old(self).cell(i, j),
                                gp.cell(i, j),
                                self.cell(i, j),
                            );
                        }
                        // the grid handed back still shows the empty cell
                        let (ex, ey) = choose|ex: int, ey: int|
                            gp.in_bounds(ex, ey) && (#[trigger] gp.cell(ex, ey)).is_open()
                                && gp.cell(ex, ey).candidates().len() == 0;
                        assert(self.cell(ex, ey) == gp.cell(ex, ey));
                        assert(self.in_bounds(ex, ey) && self.cell(ex, ey).is_open() && self.cell(
                            ex,
                            ey,
                        ).candidates().len() == 0);
                        // and failure struck while cells were still open
                        assert(gp.1 < total);
                    }
                    return Err(e);
                },
            }
        }
        proof {
            lemma_grid_resolved_bounds(*self);
        }
        Ok(n)
    }

    /// Picks, uniformly at random, one of the open cells with the fewest
    /// remaining candidates inside the rectangle
    /// `x_lo..x_hi` × `y_lo..y_hi`, or nothing if the rectangle holds no
    /// open cell. Resolving the most constrained cell first is the
    /// heuristic that keeps contradictions rare; the random tie-break
    /// avoids positional bias.
    pub fn find_lowest_entropy<R: RandomSource>(
        &self,
        x_lo: usize,
        x_hi: usize,
        y_lo: usize,
        y_hi: usize,
        rng: &mut R,
    ) -> (r: Option<(usize, usize)>)
        requires
            self.dims_ok(),
            x_hi <= self.width(),
            y_hi <= self.height(),
        ensures
            match r {
                Some(p) => {
                    &&& x_lo <= p.0 < x_hi && y_lo <= p.1 < y_hi
                    &&& self.cell(p.0 as int, p.1 as int).is_open()
                    &&& forall|i: int, j: int|
                        x_lo <= i < x_hi && y_lo <= j < y_hi && (
                        #[trigger] self.cell(i, j)).is_open() ==> self.cell(
                            p.0 as int,
                            p.1 as int,
                        ).candidates().len() <= self.cell(i, j).candidates().len()
                },
                None => forall|i: int, j: int|
                    x_lo <= i < x_hi && y_lo <= j < y_hi ==> !(#[trigger] self.cell(i, j)).is_open(),
            },
    {
        if x_lo >= x_hi || y_lo >= y_hi {
            return None;
        }
        let mut mins: Vec<(usize, usize)> = Vec::new();
        let mut best: usize = 0;
        let mut x = x_lo;
        while x < x_hi
            invariant
                x_lo <= x <= x_hi,
                y_lo < y_hi,
                self.dims_ok(),
                x_hi <= self.width(),
                y_hi <= self.height(),
                mins@.len() == 0 ==> forall|i: int, j: int|
                    x_lo <= i < x && y_lo <= j < y_hi ==> !(#[trigger] self.cell(i, j)).is_open(),
                mins@.len() > 0 ==> forall|m: int|
                    0 <= m < mins@.len() ==> {
                        let p = #[trigger] mins@[m];
                        &&& x_lo <= p.0 < x_hi && y_lo <= p.1 < y_hi
                        &&& self.cell(p.0 as int, p.1 as int).is_open()
                        &&& self.cell(p.0 as int, p.1 as int).candidates().len() == best
                    },
                mins@.len() > 0 ==> forall|i: int, j: int|
                    x_lo <= i < x && y_lo <= j < y_hi && (#[trigger] self.cell(i, j)).is_open()
                        ==> best <= self.cell(i, j).candidates().len(),
            decreases x_hi - x,
        {
            let mut y = y_lo;
            while y < y_hi
                invariant
                    x_lo <= x < x_hi,
                    y_lo <= y <= y_hi,
                    self.dims_ok(),
                    x_hi <= self.width(),
                    y_hi <= self.height(),
                    mins@.len() == 0 ==> forall|i: int, j: int|
                        x_lo <= i < x && y_lo <= j < y_hi ==> !(
                        #[trigger] self.cell(i, j)).is_open(),
                    mins@.len() == 0 ==> forall|j: int|
                        y_lo <= j < y ==> !(#[trigger] self.cell(x as int, j)).is_open(),
                    mins@.len() > 0 ==> forall|m: int|
                        0 <= m < mins@.len() ==> {
                            let p = #[trigger] mins@[m];
                            &&& x_lo <= p.0 < x_hi && y_lo <= p.1 < y_hi
                            &&& self.cell(p.0 as int, p.1 as int).is_open()
                            &&& self.cell(p.0 as int, p.1 as int).candidates().len() == best
                        },
                    mins@.len() > 0 ==> forall|i: int, j: int|
                        x_lo <= i < x && y_lo <= j < y_hi && (#[trigger] self.cell(i, j)).is_open()
                            ==> best <= self.cell(i, j).candidates().len(),
                    mins@.len() > 0 ==> forall|j: int|
                        y_lo <= j < y && (#[trigger] self.cell(x as int, j)).is_open() ==> best
                            <= self.cell(x as int, j).candidates().len(),
                decreases y_hi - y,
            {
                if self.0[x][y].is_wave() {
                    let c = self.0[x][y].candidate_count();
                    if mins.len() == 0 || c < best {
                        best = c;
                        mins.clear();
                        mins.push((x, y));
                    } else if c == best {
                        mins.push((x, y));
                    }
                }
                y += 1;
            }
            x += 1;
        }
        if mins.len() == 0 {
            None
        } else {
            let pick = rng.random_below(mins.len());
            Some(mins[pick])
        }
    }

    /// The in-bounds, still-open neighbours of (x, y). Each entry carries
    /// the neighbour's coordinates and the direction of its edge that faces
    /// (x, y).
    pub fn get_neighbours(&self, x: usize, y: usize) -> (r: Vec<(usize, usize, Direction)>)
        requires
            self.dims_ok(),
            self.in_bounds(x as int, y as int),
        ensures
            forall|k: int|
                0 <= k < r@.len() ==> {
                    let e = #[trigger] r@[k];
                    &&& self.in_bounds(e.0 as int, e.1 as int)
                    &&& self.cell(e.0 as int, e.1 as int).is_open()
                    &&& e.0 == step_x(x as int, opp(e.2))
                    &&& e.1 == step_y(y as int, opp(e.2))
                },
            x + 1 < self.width() && self.cell(x + 1, y as int).is_open() ==> r@.contains(
                ((x + 1) as usize, y, Direction::Left),
            ),
            y + 1 < self.height() && self.cell(x as int, y + 1).is_open() ==> r@.contains(
                (x, (y + 1) as usize, Direction::Down),
            ),
            x >= 1 && self.cell(x - 1, y as int).is_open() ==> r@.contains(
                ((x - 1) as usize, y, Direction::Right),
            ),
            y >= 1 && self.cell(x as int, y - 1).is_open() ==> r@.contains(
                (x, (y - 1) as usize, Direction::Up),
            ),
            r@.len() <= 4,
            forall|k1: int, k2: int|
                0 <= k1 < k2 < r@.len() ==> ((#[trigger] r@[k1]).0, r@[k1].1) != ((
                #[trigger] r@[k2]).0, r@[k2].1),
    {
        let width = self.0.len();
        let height = self.0[0].len();
        let mut r: Vec<(usize, usize, Direction)> = Vec::new();
        if x + 1 < width {
            if self.0[x + 1][y].is_wave() {
                r.push((x + 1, y, Direction::Left));
            }
        }
        let ghost n_right = r@.len();
        if y + 1 < height {
            if self.0[x][y + 1].is_wave() {
                r.push((x, y + 1, Direction::Down));
            }
        }
        let ghost n_up = r@.len();
        if x >= 1 {
            if self.0[x - 1][y].is_wave() {
                r.push((x - 1, y, Direction::Right));
            }
        }
        let ghost n_left = r@.len();
        if y >= 1 {
            if self.0[x][y - 1].is_wave() {
                r.push((x, y - 1, Direction::Up));
            }
        }
        proof {
            if x + 1 < self.width() && self.cell(x + 1, y as int).is_open() {
                assert(r@[n_right - 1] == ((x + 1) as usize, y, Direction::Left));
            }
            if y + 1 < self.height() && self.cell(x as int, y + 1).is_open() {
                assert(r@[n_up - 1] == (x, (y + 1) as usize, Direction::Down));
            }
            if x >= 1 && self.cell(x - 1, y as int).is_open() {
                assert(r@[n_left - 1] == ((x - 1) as usize, y, Direction::Right));
            }
            if y >= 1 && self.cell(x as int, y - 1).is_open() {
                assert(r@[r@.len() - 1] == (x, (y - 1) as usize, Direction::Up));
            }
            // the four possible entries sit at four distinct positions
            assert(n_right <= 1);
            assert(n_right == 1 ==> r@[0] == ((x + 1) as usize, y, Direction::Left) && x + 1
                < self.width());
            assert(n_up <= n_right + 1);
            assert(n_up == n_right + 1 ==> r@[n_right as int] == (x, (y + 1) as usize, Direction::Down)
                && y + 1 < self.height());
            assert(n_left <= n_up + 1);
            assert(n_left == n_up + 1 ==> r@[n_up as int] == ((x - 1) as usize, y, Direction::Right) && x
                >= 1);
            assert(r@.len() <= n_left + 1);
            assert(r@.len() == n_left + 1 ==> r@[n_left as int] == (x, (y - 1) as usize, Direction::Up)
                && y >= 1);
            assert forall|k1: int, k2: int|
                0 <= k1 < k2 < r@.len() implies ((#[trigger] r@[k1]).0, r@[k1].1) != ((
            #[trigger] r@[k2]).0, r@[k2].1) by {}
        }
        r
    }
}

/// Replacing one cell of a row changes its resolved count by exactly that
/// cell's contribution.
pub proof fn lemma_row_resolved_update(row: Seq<Tile>, y: int, t: Tile)
    requires
        0 <= y < row.len(),
    ensures
        row_resolved(row.update(y, t)) + resolved_bit(row[y]) == row_resolved(row) + resolved_bit(
            t,
        ),
    decreases row.len(),
{
    let r2 = row.update(y, t);
    if y == row.len() - 1 {
        assert(r2.drop_last() =~= row.drop_last());
    } else {
        assert(r2.drop_last() =~= row.drop_last().update(y, t));
        assert(r2.last() == row.last());
        lemma_row_resolved_update(row.drop_last(), y, t);
    }
}

/// Replacing one column changes the grid's resolved count by exactly that
/// column's contribution.
pub proof fn lemma_rows_resolved_update(rows: Seq<Vec<Tile>>, x: int, col: Vec<Tile>)
    requires
        0 <= x < rows.len(),
    ensures
        rows_resolved(rows.update(x, col)) + row_resolved(rows[x]@) == rows_resolved(rows)
            + row_resolved(col@),
    decreases rows.len(),
{
    let r2 = rows.update(x, col);
    if x == rows.len() - 1 {
        assert(r2.drop_last() =~= rows.drop_last());
    } else {
        assert(r2.drop_last() =~= rows.drop_last().update(x, col));
        assert(r2.last() == rows.last());
        lemma_rows_resolved_update(rows.drop_last(), x, col);
    }
}

/// Replacing one cell of a row changes its load by exactly that cell's
/// contribution.
pub proof fn lemma_row_load_update(row: Seq<Tile>, y: int, t: Tile)
    requires
        0 <= y < row.len(),
    ensures
        row_load(row.update(y, t)) + cell_load(row[y]) == row_load(row) + cell_load(t),
    decreases row.len(),
{
    let r2 = row.update(y, t);
    if y == row.len() - 1 {
        assert(r2.drop_last() =~= row.drop_last());
    } else {
        assert(r2.drop_last() =~= row.drop_last().update(y, t));
        assert(r2.last() == row.last());
        lemma_row_load_update(row.drop_last(), y, t);
    }
}

/// Replacing one column changes the grid's load by exactly that column's
/// contribution.
pub proof fn lemma_rows_load_update(rows: Seq<Vec<Tile>>, x: int, col: Vec<Tile>)
    requires
        0 <= x < rows.len(),
    ensures
        rows_load(rows.update(x, col)) + row_load(rows[x]@) == rows_load(rows) + row_load(col@),
    decreases rows.len(),
{
    let r2 = rows.update(x, col);
    if x == rows.len() - 1 {
        assert(r2.drop_last() =~= rows.drop_last());
    } else {
        assert(r2.drop_last() =~= rows.drop_last().update(x, col));
        assert(r2.last() == rows.last());
        lemma_rows_load_update(rows.drop_last(), x, col);
    }
}

/// A row resolves at most all of its cells, and exactly all of them iff
/// none is open.
pub proof fn lemma_row_resolved_le(row: Seq<Tile>)
    ensures
        row_resolved(row) <= row.len(),
        (row_resolved(row) == row.len()) <==> (forall|j: int|
            0 <= j < row.len() ==> !(#[trigger] row[j]).is_open()),
    decreases row.len(),
{
    if row.len() > 0 {
        lemma_row_resolved_le(row.drop_last());
        if row_resolved(row) == row.len() {
            assert forall|j: int| 0 <= j < row.len() implies !(#[trigger] row[j]).is_open() by {
                if j < row.len() - 1 {
                    assert(row.drop_last()[j] == row[j]);
                }
            }
        }
        if forall|j: int| 0 <= j < row.len() ==> !(#[trigger] row[j]).is_open() {
            assert forall|j: int|
                0 <= j < row.drop_last().len() implies !(#[trigger] row.drop_last()[j]).is_open()
            by {
                assert(row.drop_last()[j] == row[j]);
            }
        }
    }
}

/// A grid of `h`-cell columns resolves at most all of its cells, and
/// exactly all of them iff none is open.
pub proof fn lemma_rows_resolved_le(rows: Seq<Vec<Tile>>, h: nat)
    requires
        forall|i: int| 0 <= i < rows.len() ==> (#[trigger] rows[i])@.len() == h,
    ensures
        rows_resolved(rows) <= rows.len() * h,
        (rows_resolved(rows) == rows.len() * h) <==> (forall|i: int, j: int|
            0 <= i < rows.len() && 0 <= j < h ==> !(#[trigger] rows[i]@[j]).is_open()),
    decreases rows.len(),
{
    if rows.len() == 0 {
        assert(rows.len() * h == 0);
    } else {
        let rest = rows.drop_last();
        assert(forall|i: int| 0 <= i < rest.len() ==> (#[trigger] rest[i])@.len() == h);
        lemma_rows_resolved_le(rest, h);
        lemma_row_resolved_le(rows.last()@);
        let n = rows.len() as int;
        assert(n * h == (n - 1) * h + h) by (nonlinear_arith);
        assert(rest.len() as int == n - 1);
        if rows_resolved(rows) == rows.len() * h {
            assert forall|i: int, j: int|
                0 <= i < rows.len() && 0 <= j < h implies !(#[trigger] rows[i]@[j]).is_open() by {
                if i < rows.len() - 1 {
                    assert(rest[i] == rows[i]);
                } else {
                    assert(rows.last() == rows[i]);
                }
            }
        }
        if forall|i: int, j: int| 0 <= i < rows.len() && 0 <= j < h ==> !(
        #[trigger] rows[i]@[j]).is_open() {
            assert forall|i: int, j: int|
                0 <= i < rest.len() && 0 <= j < h implies !(#[trigger] rest[i]@[j]).is_open() by {
                assert(rest[i] == rows[i]);
            }
            assert forall|j: int|
                0 <= j < rows.last()@.len() implies !(#[trigger] rows.last()@[j]).is_open() by {
                assert(rows.last() == rows[rows.len() - 1]);
            }
        }
    }
}

/// Walking a step and looking back returns to the start.
pub proof fn lemma_step_roundtrip(x: int, y: int, d: Direction)
    ensures
        step_x(step_x(x, d), opp(d)) == x,
        step_y(step_y(y, d), opp(d)) == y,
        opp(opp(d)) == d,
{
}

/// A cell may always stand still.
pub proof fn lemma_cell_evolves_refl(t: Tile)
    ensures
        cell_evolves(t, t),
{
    lemma_narrows_refl(t);
}

/// The resolved counter can reach the cell count only when every cell is
/// resolved, and never goes past it.
pub proof fn lemma_grid_resolved_bounds(g: Grid)
    requires
        g.dims_ok(),
    ensures
        rows_resolved(g.0@) <= g.width() * g.height(),
        (rows_resolved(g.0@) == g.width() * g.height()) <==> (forall|x: int, y: int|
            g.in_bounds(x, y) ==> !(#[trigger] g.cell(x, y)).is_open()),
{
    lemma_rows_resolved_le(g.0@, g.height());
    if rows_resolved(g.0@) == g.width() * g.height() {
        assert forall|x: int, y: int|
            g.in_bounds(x, y) implies !(#[trigger] g.cell(x, y)).is_open() by {
            assert(!g.0@[x]@[y].is_open());
        }
    }
    if forall|x: int, y: int| g.in_bounds(x, y) ==> !(#[trigger] g.cell(x, y)).is_open() {
        assert forall|i: int, j: int|
            0 <= i < g.0@.len() && 0 <= j < g.height() implies !(
        #[trigger] g.0@[i]@[j]).is_open() by {
            assert(!g.cell(i, j).is_open());
        }
    }
}

/// Narrowing is reflexive.
pub proof fn lemma_narrows_refl(t: Tile)
    ensures
        narrows(t, t),
{
    if t.is_open() {
        assert forall|i: int|
            0 <= i < t.candidates().len() implies t.candidates().contains(
            #[trigger] t.candidates()[i]) by {}
    }
}

/// Narrowing steps compose.
pub proof fn lemma_narrows_trans(a: Tile, b: Tile, c: Tile)
    requires
        narrows(a, b),
        narrows(b, c),
    ensures
        narrows(a, c),
{
    if a.is_open() {
        assert forall|i: int|
            0 <= i < c.candidates().len() implies a.candidates().contains(
            #[trigger] c.candidates()[i]) by {
            assert(b.candidates().contains(c.candidates()[i]));
            let j = choose|j: int|
                0 <= j < b.candidates().len() && b.candidates()[j] == c.candidates()[i];
            assert(a.candidates().contains(b.candidates()[j]));
        }
    }
}

/// Ticks compose: what a cell can become over one tick it can become over
/// many.
pub proof fn lemma_cell_evolves_trans(a: Tile, b: Tile, c: Tile)
    requires
        cell_evolves(a, b),
        cell_evolves(b, c),
    ensures
        cell_evolves(a, c),
{
    if a.is_open() && b.is_open() {
        if c.is_open() {
            lemma_narrows_trans(a, b, c);
        } else {
            assert(b.candidates().contains(c.candidates()[0]));
            let j = choose|j: int|
                0 <= j < b.candidates().len() && b.candidates()[j] == c.candidates()[0];
            assert(a.candidates().contains(b.candidates()[j]));
        }
    }
}

/// Compatibility reads the same shared edge from either side.
pub proof fn lemma_compatible_symmetric(a: ConnectionRules, d: Direction, b: ConnectionRules)
    ensures
        compatible(a, d, b) == compatible(b, opp(d), a),
{
    assert(opp(opp(d)) == d);
}

/// A cell that only lost candidates still satisfies every constraint its
/// old candidate set satisfied.
pub proof fn lemma_all_compatible_narrows(r: ConnectionRules, d: Direction, a: Tile, b: Tile)
    requires
        narrows(a, b),
        all_compatible(r, d, a),
    ensures
        all_compatible(r, d, b),
{
    if a.is_open() {
        assert forall|i: int|
            0 <= i < b.candidates().len() implies compatible(
            r,
            d,
            (#[trigger] b.candidates()[i]).1,
        ) by {
            assert(a.candidates().contains(b.candidates()[i]));
            let j = choose|j: int|
                0 <= j < a.candidates().len() && a.candidates()[j] == b.candidates()[i];
            assert(compatible(r, d, a.candidates()[j].1));
        }
    }
}

/// Narrowing every cell preserves the adjacency invariant with one cell
/// exempted.
pub proof fn lemma_inv_except_narrows(g1: Grid, g2: Grid, ox: int, oy: int)
    requires
        g1.width() == g2.width(),
        g1.height() == g2.height(),
        forall|i: int, j: int|
            g1.in_bounds(i, j) ==> narrows(#[trigger] g1.cell(i, j), g2.cell(i, j)),
        g1.inv_adjacent_except(ox, oy),
    ensures
        g2.inv_adjacent_except(ox, oy),
{
    assert forall|x: int, y: int, d: Direction|
        g2.in_bounds(x, y) && !(x == ox && y == oy) implies #[trigger] g2.adj_ok(x, y, d) by {
        assert(g1.adj_ok(x, y, d));
        lemma_adj_ok_narrows(g1, g2, x, y, d);
    }
}

/// One adjacency constraint survives a grid-wide narrowing step.
proof fn lemma_adj_ok_narrows(g1: Grid, g2: Grid, x: int, y: int, d: Direction)
    requires
        g1.width() == g2.width(),
        g1.height() == g2.height(),
        g1.in_bounds(x, y),
        forall|i: int, j: int|
            g1.in_bounds(i, j) ==> narrows(#[trigger] g1.cell(i, j), g2.cell(i, j)),
        g1.adj_ok(x, y, d),
    ensures
        g2.adj_ok(x, y, d),
{
    assert(narrows(g1.cell(x, y), g2.cell(x, y)));
    match g2.cell(x, y) {
        Tile::Collapsed(name, rules) => {
            assert(g2.cell(x, y) == g1.cell(x, y));
            let nx = step_x(x, d);
            let ny = step_y(y, d);
            if g2.in_bounds(nx, ny) {
                assert(narrows(g1.cell(nx, ny), g2.cell(nx, ny)));
                lemma_all_compatible_narrows(rules, d, g1.cell(nx, ny), g2.cell(nx, ny));
            }
        },
        Tile::Wave(_) => {},
    }
}

/// Is (i, j) inside the rectangle `x_lo..x_hi` × `y_lo..y_hi`?
pub open spec fn in_region(
    i: int,
    j: int,
    x_lo: int,
    x_hi: int,
    y_lo: int,
    y_hi: int,
) -> bool {
    x_lo <= i < x_hi && y_lo <= j < y_hi
}

/// A row of open cells holds no resolved one.
pub proof fn lemma_row_resolved_all_open(row: Seq<Tile>)
    requires
        forall|j: int| 0 <= j < row.len() ==> (#[trigger] row[j]).is_open(),
    ensures
        row_resolved(row) == 0,
    decreases row.len(),
{
    if row.len() > 0 {
        lemma_row_resolved_all_open(row.drop_last());
    }
}

/// A grid of open cells holds no resolved one.
pub proof fn lemma_rows_resolved_all_open(rows: Seq<Vec<Tile>>)
    requires
        forall|i: int, j: int|
            0 <= i < rows.len() && 0 <= j < rows[i]@.len() ==> (#[trigger] rows[i]@[j]).is_open(),
    ensures
        rows_resolved(rows) == 0,
    decreases rows.len(),
{
    if rows.len() > 0 {
        lemma_rows_resolved_all_open(rows.drop_last());
        lemma_row_resolved_all_open(rows.last()@);
    }
}

} // verus!
