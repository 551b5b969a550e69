//! The mathematical model of the grid: rows of cell labels.
//!
//! A cell holds `SPACE` while it is empty, `HOLE` where the board is
//! blocked from the start, or the letter of the piece that fills it.
//! Positions outside the grid read as `OUTSIDE`.

use vstd::prelude::*;
use crate::point::Point;

verus! {

/// The label of an empty cell.
pub const SPACE: char = ' ';

/// The label of a cell that is blocked from the start.
pub const HOLE: char = '@';

/// The label that positions outside the grid read as.
pub const OUTSIDE: char = '?';

/// The grid has `h` rows of `w` cells each.
pub open spec fn rect(g: Seq<Seq<char>>, w: int, h: int) -> bool {
    &&& g.len() == h
    &&& forall|y: int| 0 <= y < h ==> (#[trigger] g[y]).len() == w
}

/// The position lies on the grid.
pub open spec fn inside(g: Seq<Seq<char>>, x: int, y: int) -> bool {
    0 <= y < g.len() && 0 <= x < g[y].len()
}

/// The label at a position: that of the cell, or `OUTSIDE`.
pub open spec fn label(g: Seq<Seq<char>>, x: int, y: int) -> char {
    if inside(g, x, y) {
        g[y][x]
    } else {
        OUTSIDE
    }
}

/// The position is an empty cell of the grid.
pub open spec fn free(g: Seq<Seq<char>>, x: int, y: int) -> bool {
    inside(g, x, y) && g[y][x] == SPACE
}

/// Every point of the shape, offset by the anchor, is an empty cell.
pub open spec fn fits(g: Seq<Seq<char>>, a: Point, fig: Seq<Point>) -> bool {
    forall|i: int| 0 <= i < fig.len() ==> free(g, a.x + (#[trigger] fig[i]).x, a.y + fig[i].y)
}

/// Every point of the shape, offset by the anchor, lies on the grid.
pub open spec fn lands(g: Seq<Seq<char>>, a: Point, fig: Seq<Point>) -> bool {
    forall|i: int| 0 <= i < fig.len() ==> inside(g, a.x + (#[trigger] fig[i]).x, a.y + fig[i].y)
}

/// Some point of the shape, offset by the anchor, is the position.
pub open spec fn covers(a: Point, fig: Seq<Point>, x: int, y: int) -> bool {
    exists|i: int| 0 <= i < fig.len() && a.x + (#[trigger] fig[i]).x == x && a.y + fig[i].y == y
}

/// The grid with one cell relabelled.
pub open spec fn with_cell(g: Seq<Seq<char>>, x: int, y: int, c: char) -> Seq<Seq<char>> {
    g.update(y, g[y].update(x, c))
}

/// The grid with the cells that the shape covers relabelled `id`.
pub open spec fn put(g: Seq<Seq<char>>, a: Point, fig: Seq<Point>, id: char) -> Seq<Seq<char>> {
    Seq::new(
        g.len(),
        |y: int| Seq::new(g[y].len(), |x: int| if covers(a, fig, x, y) { id } else { g[y][x] }),
    )
}

/// The position `(x, y)` is `from` or comes after it in row-major order.
pub open spec fn at_or_after(from: Point, x: int, y: int) -> bool {
    y > from.y || (y == from.y && x >= from.x)
}

/// `p` is the first empty cell at or after `from` in row-major order.
pub open spec fn is_first_free(g: Seq<Seq<char>>, from: Point, p: Point) -> bool {
    &&& free(g, p.x as int, p.y as int)
    &&& at_or_after(from, p.x as int, p.y as int)
    &&& forall|x: int, y: int|
        #[trigger] free(g, x, y) && at_or_after(from, x, y) ==> at_or_after(p, x, y)
}

/// The first empty cell at or after `from`, where there is one.
pub open spec fn first_free(g: Seq<Seq<char>>, from: Point) -> Point {
    choose|p: Point| is_first_free(g, from, p)
}

/// No empty cell comes before `from` in row-major order.
pub open spec fn filled_before(g: Seq<Seq<char>>, from: Point) -> bool {
    forall|x: int, y: int| #[trigger] free(g, x, y) ==> at_or_after(from, x, y)
}

/// The number of empty cells in a row.
pub open spec fn row_free(row: Seq<char>) -> nat
    decreases row.len(),
{
    if row.len() == 0 {
        0
    } else {
        row_free(row.drop_last()) + if row.last() == SPACE { 1nat } else { 0nat }
    }
}

/// The number of empty cells in the grid.
pub open spec fn free_count(g: Seq<Seq<char>>) -> nat
    decreases g.len(),
{
    if g.len() == 0 {
        0
    } else {
        free_count(g.drop_last()) + row_free(g.last())
    }
}

/// There is at most one first empty cell.
pub proof fn lemma_first_free_unique(g: Seq<Seq<char>>, from: Point, p: Point, q: Point)
    requires
        is_first_free(g, from, p),
        is_first_free(g, from, q),
    ensures
        p == q,
        first_free(g, from) == p,
{
    assert(at_or_after(p, q.x as int, q.y as int));
    assert(at_or_after(q, p.x as int, p.y as int));
    let r = first_free(g, from);
    assert(at_or_after(p, r.x as int, r.y as int));
    assert(at_or_after(r, p.x as int, p.y as int));
}

/// Relabelling one cell of a row changes the number of empty cells by
/// what the old and the new label contribute.
pub proof fn lemma_row_update(row: Seq<char>, x: int, c: char)
    requires
        0 <= x < row.len(),
    ensures
        row_free(row.update(x, c)) + (if row[x] == SPACE { 1int } else { 0int }) == row_free(row)
            + (if c == SPACE { 1int } else { 0int }),
    decreases row.len(),
{
    let after = row.update(x, c);
    if x == row.len() - 1 {
        assert(after.drop_last() =~= row.drop_last());
    } else {
        assert(after.drop_last() =~= row.drop_last().update(x, c));
        lemma_row_update(row.drop_last(), x, c);
    }
}

/// Replacing one row changes the number of empty cells by the difference
/// between the two rows.
pub proof fn lemma_grid_update(g: Seq<Seq<char>>, y: int, row: Seq<char>)
    requires
        0 <= y < g.len(),
    ensures
        free_count(g.update(y, row)) + row_free(g[y]) == free_count(g) + row_free(row),
    decreases g.len(),
{
    let after = g.update(y, row);
    if y == g.len() - 1 {
        assert(after.drop_last() =~= g.drop_last());
    } else {
        assert(after.drop_last() =~= g.drop_last().update(y, row));
        lemma_grid_update(g.drop_last(), y, row);
    }
}

/// Relabelling one cell changes the number of empty cells by what the
/// old and the new label contribute.
pub proof fn lemma_with_cell_count(g: Seq<Seq<char>>, x: int, y: int, c: char)
    requires
        inside(g, x, y),
    ensures
        free_count(with_cell(g, x, y, c)) + (if g[y][x] == SPACE { 1int } else { 0int })
            == free_count(g) + (if c == SPACE { 1int } else { 0int }),
{
    lemma_row_update(g[y], x, c);
    lemma_grid_update(g, y, g[y].update(x, c));
}

/// A row with an empty cell counts at least one.
pub proof fn lemma_row_free_positive(row: Seq<char>, x: int)
    requires
        0 <= x < row.len(),
        row[x] == SPACE,
    ensures
        row_free(row) > 0,
    decreases row.len(),
{
    if x < row.len() - 1 {
        lemma_row_free_positive(row.drop_last(), x);
    }
}

/// A row that counts at least one has an empty cell.
pub proof fn lemma_row_free_witness(row: Seq<char>) -> (x: int)
    requires
        row_free(row) > 0,
    ensures
        0 <= x < row.len(),
        row[x] == SPACE,
    decreases row.len(),
{
    if row.last() == SPACE {
        row.len() - 1
    } else {
        lemma_row_free_witness(row.drop_last())
    }
}

/// The grid counts no empty cell exactly when it has none.
pub proof fn lemma_free_count_zero(g: Seq<Seq<char>>)
    ensures
        free_count(g) == 0 <==> forall|x: int, y: int| !free(g, x, y),
    decreases g.len(),
{
    if g.len() > 0 {
        let rest = g.drop_last();
        let top = g.len() - 1;
        lemma_free_count_zero(rest);
        if free_count(g) == 0 {
            assert forall|x: int, y: int| !free(g, x, y) by {
                if free(g, x, y) {
                    if y < top {
                        assert(free(rest, x, y));
                    } else {
                        lemma_row_free_positive(g[top], x);
                    }
                }
            }
        } else {
            if row_free(g.last()) > 0 {
                let x = lemma_row_free_witness(g.last());
                assert(free(g, x, top));
            } else {
                let (x, y) = choose|x: int, y: int| free(rest, x, y);
                assert(free(g, x, y));
            }
        }
    }
}

/// Clearing the cells that a shape was put on gives back the grid, if
/// the shape fitted.
pub proof fn lemma_put_then_clear(g: Seq<Seq<char>>, a: Point, fig: Seq<Point>, id: char)
    requires
        fits(g, a, fig),
    ensures
        put(put(g, a, fig, id), a, fig, SPACE) == g,
{
    let mid = put(g, a, fig, id);
    let back = put(mid, a, fig, SPACE);
    assert(back.len() == g.len());
    assert forall|y: int| 0 <= y < g.len() implies back[y] == g[y] by {
        assert(mid[y].len() == g[y].len());
        assert forall|x: int| 0 <= x < g[y].len() implies back[y][x] == g[y][x] by {
            if covers(a, fig, x, y) {
                let i = choose|i: int|
                    0 <= i < fig.len() && a.x + (#[trigger] fig[i]).x == x && a.y + fig[i].y == y;
                assert(free(g, a.x + fig[i].x, a.y + fig[i].y));
            }
        }
        assert(back[y] =~= g[y]);
    }
    assert(back =~= g);
}

/// Putting a shape on the grid point by point: the first `i + 1` points
/// cover what the first `i` cover and the cell of point `i`.
pub proof fn lemma_put_step(g: Seq<Seq<char>>, a: Point, fig: Seq<Point>, i: int, id: char)
    requires
        0 <= i < fig.len(),
        inside(g, a.x + fig[i].x, a.y + fig[i].y),
    ensures
        put(g, a, fig.take(i + 1), id) == with_cell(
            put(g, a, fig.take(i), id),
            a.x + fig[i].x,
            a.y + fig[i].y,
            id,
        ),
{
    let done = fig.take(i);
    let more = fig.take(i + 1);
    let want = put(g, a, more, id);
    let got = with_cell(put(g, a, done, id), a.x + fig[i].x, a.y + fig[i].y, id);
    assert(more[i] == fig[i]);
    assert forall|y: int| 0 <= y < g.len() implies got[y] =~= want[y] by {
        assert forall|x: int| 0 <= x < g[y].len() implies got[y][x] == want[y][x] by {
            if covers(a, done, x, y) {
                let j = choose|j: int|
                    0 <= j < done.len() && a.x + (#[trigger] done[j]).x == x && a.y + done[j].y
                        == y;
                assert(more[j] == done[j]);
            }
            if covers(a, more, x, y) {
                let j = choose|j: int|
                    0 <= j < more.len() && a.x + (#[trigger] more[j]).x == x && a.y + more[j].y
                        == y;
                if j < i {
                    assert(done[j] == more[j]);
                }
            }
        }
    }
    assert(got =~= want);
}

/// Putting a shape of distinct points on empty cells, under a label
/// other than `SPACE`, takes as many empty cells as the shape has points.
pub proof fn lemma_put_count(g: Seq<Seq<char>>, a: Point, fig: Seq<Point>, id: char)
    requires
        fits(g, a, fig),
        fig.no_duplicates(),
        id != SPACE,
    ensures
        free_count(put(g, a, fig, id)) + fig.len() == free_count(g),
    decreases fig.len(),
{
    if fig.len() == 0 {
        assert forall|y: int| 0 <= y < g.len() implies put(g, a, fig, id)[y] =~= g[y] by {}
        assert(put(g, a, fig, id) =~= g);
    } else {
        let i = fig.len() - 1;
        let rest = fig.take(i);
        let x = a.x + fig[i].x;
        let y = a.y + fig[i].y;
        assert(fig.take(i + 1) =~= fig);
        assert(free(g, x, y));
        assert forall|j: int| 0 <= j < rest.len() implies free(
            g,
            a.x + (#[trigger] rest[j]).x,
            a.y + rest[j].y,
        ) by {
            assert(rest[j] == fig[j]);
        }
        lemma_put_count(g, a, rest, id);
        lemma_put_step(g, a, fig, i, id);
        let mid = put(g, a, rest, id);
        if covers(a, rest, x, y) {
            let j = choose|j: int|
                0 <= j < rest.len() && a.x + (#[trigger] rest[j]).x == x && a.y + rest[j].y == y;
            assert(fig[j] == fig[i]);
        }
        assert(mid[y][x] == SPACE);
        lemma_with_cell_count(mid, x, y, id);
    }
}

/// What is empty after a shape was put on the grid was empty before.
pub proof fn lemma_put_free(g: Seq<Seq<char>>, a: Point, fig: Seq<Point>, id: char, x: int, y: int)
    requires
        id != SPACE,
        free(put(g, a, fig, id), x, y),
    ensures
        free(g, x, y),
        !covers(a, fig, x, y),
{
}

} // verus!
