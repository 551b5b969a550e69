//! What a solution is, and why the search finds nothing else.
//!
//! A solution lays every piece of the pool on the board once, on cells
//! that were empty, so that no two pieces share a cell and no cell stays
//! empty.

use vstd::prelude::*;
use vstd::seq_lib::{lemma_no_dup_in_concat, lemma_sorted_unique};
use crate::grid::{
    at_or_after, covers, first_free, fits, free, free_count, inside, is_first_free,
    lemma_free_count_zero, lemma_put_free, put, rect, SPACE,
};
use crate::piece::Kind;
use crate::point::Point;
use crate::search::{
    from_pieces, from_shape, from_shapes, lemma_ready_step, ready, solutions, usable, CELLS,
};
use crate::shape::{is_canonical, lemma_row_major_total, lemma_same_members, origin, row_major};

verus! {

/// The piece at position `k` of the pool, laid as `lay[k]` says (the
/// index of an orientation, and the anchor), covers the cell `(x, y)`.
pub open spec fn laid(
    cat: Seq<Kind>,
    pool: Seq<usize>,
    lay: Seq<(int, Point)>,
    k: int,
    x: int,
    y: int,
) -> bool {
    covers(lay[k].1, cat[pool[k] as int].shapes[lay[k].0], x, y)
}

/// The grid `s` is the grid `g` with every piece of the pool laid on it
/// as `lay` says: each piece in one of its orientations on cells that
/// are empty in `g`, no cell under two pieces, each covered cell
/// labelled with its piece's letter, and every other cell as it is in
/// `g` and not empty.
pub open spec fn tiles(
    cat: Seq<Kind>,
    g: Seq<Seq<char>>,
    pool: Seq<usize>,
    s: Seq<Seq<char>>,
    lay: Seq<(int, Point)>,
) -> bool {
    &&& lay.len() == pool.len()
    &&& s.len() == g.len()
    &&& forall|y: int| 0 <= y < g.len() ==> (#[trigger] s[y]).len() == g[y].len()
    &&& forall|k: int|
        0 <= k < pool.len() ==> 0 <= (#[trigger] lay[k]).0 < cat[pool[k] as int].shapes.len()
            && fits(g, lay[k].1, cat[pool[k] as int].shapes[lay[k].0])
    &&& forall|k: int, m: int, x: int, y: int|
        0 <= k < m < pool.len() ==> !(#[trigger] laid(cat, pool, lay, k, x, y) && #[trigger] laid(
            cat,
            pool,
            lay,
            m,
            x,
            y,
        ))
    &&& forall|k: int, x: int, y: int|
        0 <= k < pool.len() && #[trigger] laid(cat, pool, lay, k, x, y) ==> s[y][x]
            == cat[pool[k] as int].id
    &&& forall|x: int, y: int| #[trigger]
        inside(g, x, y) ==> under_piece(cat, pool, lay, x, y) || (s[y][x] == g[y][x] && g[y][x]
            != SPACE)
}

/// Some piece of the pool covers the cell `(x, y)`.
pub open spec fn under_piece(
    cat: Seq<Kind>,
    pool: Seq<usize>,
    lay: Seq<(int, Point)>,
    x: int,
    y: int,
) -> bool {
    exists|k: int| 0 <= k < pool.len() && laid(cat, pool, lay, k, x, y)
}

/// Where an empty cell lies at or after `from`, there is a first one.
pub proof fn lemma_first_free_exists(g: Seq<Seq<char>>, w: int, h: int, from: Point, x: int, y: int)
    requires
        rect(g, w, h),
        w <= i32::MAX,
        h <= i32::MAX,
        free(g, x, y),
        at_or_after(from, x, y),
    ensures
        is_first_free(g, from, first_free(g, from)),
    decreases y * w + x,
{
    assert(g[y].len() == w);
    let here = Point { x: x as i32, y: y as i32 };
    let earlier = exists|cx: int, cy: int|
        free(g, cx, cy) && at_or_after(from, cx, cy) && !at_or_after(here, cx, cy);
    if earlier {
        let (cx, cy) = choose|cx: int, cy: int|
            free(g, cx, cy) && at_or_after(from, cx, cy) && !at_or_after(here, cx, cy);
        assert(g[cy].len() == w);
        assert(cy * w + cx < y * w + x) by (nonlinear_arith)
            requires
                cy < y || (cy == y && cx < x),
                0 <= cx < w,
                0 <= x < w,
                0 <= cy,
        ;
        assert(0 <= cy * w + cx) by (nonlinear_arith)
            requires
                0 <= cx,
                0 <= cy,
                0 <= w,
        ;
        lemma_first_free_exists(g, w, h, from, cx, cy);
    } else {
        assert(is_first_free(g, from, here));
    }
}

/// A tiling of what is left after one piece was laid, together with that
/// piece, is a tiling of the whole.
pub proof fn lemma_tiles_extend(
    cat: Seq<Kind>,
    g: Seq<Seq<char>>,
    pool: Seq<usize>,
    at: Point,
    i: int,
    j: int,
    s: Seq<Seq<char>>,
    lay: Seq<(int, Point)>,
)
    requires
        0 <= i < pool.len(),
        0 <= j < cat[pool[i] as int].shapes.len(),
        cat[pool[i] as int].id != SPACE,
        fits(g, at, cat[pool[i] as int].shapes[j]),
        tiles(
            cat,
            put(g, at, cat[pool[i] as int].shapes[j], cat[pool[i] as int].id),
            pool.remove(i),
            s,
            lay,
        ),
    ensures
        tiles(cat, g, pool, s, lay.insert(i, (j, at))),
{
    let piece = cat[pool[i] as int];
    let fig = piece.shapes[j];
    let id = piece.id;
    let mid = put(g, at, fig, id);
    let rest = pool.remove(i);
    let all = lay.insert(i, (j, at));
    // How positions of the longer lists map to the shorter ones.
    assert forall|k: int| 0 <= k < pool.len() && k != i implies (#[trigger] all[k]) == lay[if k
        < i {
        k
    } else {
        k - 1
    }] && pool[k] == rest[if k < i {
        k
    } else {
        k - 1
    }] by {}
    assert forall|k: int, x: int, y: int| 0 <= k < pool.len() && k != i implies (#[trigger] laid(
        cat,
        pool,
        all,
        k,
        x,
        y,
    ) <==> laid(cat, rest, lay, if k < i { k } else { k - 1 }, x, y)) by {}
    assert(all[i] == (j, at));
    assert forall|x: int, y: int| #[trigger]
        laid(cat, pool, all, i, x, y) <==> covers(at, fig, x, y) by {}
    // A cell under one of the other pieces was empty after the first was laid.
    assert forall|r: int, x: int, y: int| 0 <= r < rest.len() && #[trigger] laid(
        cat,
        rest,
        lay,
        r,
        x,
        y,
    ) implies free(mid, x, y) && free(g, x, y) && !covers(at, fig, x, y) by {
        let f = cat[rest[r] as int].shapes[lay[r].0];
        assert(fits(mid, lay[r].1, f));
        let n = choose|n: int|
            0 <= n < f.len() && lay[r].1.x + (#[trigger] f[n]).x == x && lay[r].1.y + f[n].y == y;
        assert(free(mid, lay[r].1.x + f[n].x, lay[r].1.y + f[n].y));
        lemma_put_free(g, at, fig, id, x, y);
    }
    assert forall|k: int| 0 <= k < pool.len() implies 0 <= (#[trigger] all[k]).0
        < cat[pool[k] as int].shapes.len() && fits(
        g,
        all[k].1,
        cat[pool[k] as int].shapes[all[k].0],
    ) by {
        if k != i {
            let r = if k < i { k } else { k - 1 };
            let f = cat[rest[r] as int].shapes[lay[r].0];
            assert(0 <= lay[r].0 < cat[rest[r] as int].shapes.len() && fits(mid, lay[r].1, f));
            assert forall|n: int| 0 <= n < f.len() implies free(
                g,
                lay[r].1.x + (#[trigger] f[n]).x,
                lay[r].1.y + f[n].y,
            ) by {
                assert(free(mid, lay[r].1.x + f[n].x, lay[r].1.y + f[n].y));
                lemma_put_free(g, at, fig, id, lay[r].1.x + f[n].x, lay[r].1.y + f[n].y);
            }
        }
    }
    assert forall|k: int, m: int, x: int, y: int| 0 <= k < m < pool.len() implies !(#[trigger] laid(
        cat,
        pool,
        all,
        k,
        x,
        y,
    ) && #[trigger] laid(cat, pool, all, m, x, y)) by {
        if laid(cat, pool, all, k, x, y) && laid(cat, pool, all, m, x, y) {
            let rk = if k < i { k } else { k - 1 };
            let rm = if m < i { m } else { m - 1 };
            if k == i {
                assert(laid(cat, rest, lay, rm, x, y));
            } else if m == i {
                assert(laid(cat, rest, lay, rk, x, y));
            } else {
                assert(laid(cat, rest, lay, rk, x, y));
                assert(laid(cat, rest, lay, rm, x, y));
            }
        }
    }
    assert forall|k: int, x: int, y: int| 0 <= k < pool.len() && #[trigger] laid(
        cat,
        pool,
        all,
        k,
        x,
        y,
    ) implies s[y][x] == cat[pool[k] as int].id by {
        if k == i {
            let n = choose|n: int|
                0 <= n < fig.len() && at.x + (#[trigger] fig[n]).x == x && at.y + fig[n].y == y;
            assert(free(g, at.x + fig[n].x, at.y + fig[n].y));
            assert(inside(mid, x, y));
            if under_piece(cat, rest, lay, x, y) {
                let r = choose|r: int| 0 <= r < rest.len() && laid(cat, rest, lay, r, x, y);
                assert(laid(cat, rest, lay, r, x, y));
            }
            assert(mid[y][x] == id);
        } else {
            let r = if k < i { k } else { k - 1 };
            assert(laid(cat, rest, lay, r, x, y));
        }
    }
    assert forall|x: int, y: int| #[trigger] inside(g, x, y) implies under_piece(
        cat,
        pool,
        all,
        x,
        y,
    ) || (s[y][x] == g[y][x] && g[y][x] != SPACE) by {
        assert(inside(mid, x, y));
        if covers(at, fig, x, y) {
            assert(laid(cat, pool, all, i, x, y));
        } else if under_piece(cat, rest, lay, x, y) {
            let r = choose|r: int| 0 <= r < rest.len() && laid(cat, rest, lay, r, x, y);
            let k = if r < i { r } else { r + 1 };
            assert(laid(cat, pool, all, k, x, y));
        } else {
            assert(mid[y][x] == g[y][x]);
        }
    }
    assert forall|y: int| 0 <= y < g.len() implies (#[trigger] s[y]).len() == g[y].len() by {
        assert(s[y].len() == mid[y].len());
    }
}

/// Every solution that the search finds from a state that is `ready`
/// lays each piece of the pool once, on cells that were empty, with no
/// cell under two pieces and no cell left empty. The result says how the
/// pieces lie.
pub proof fn lemma_solutions_tile(
    cat: Seq<Kind>,
    g: Seq<Seq<char>>,
    w: int,
    h: int,
    pool: Seq<usize>,
    from: Point,
    n: int,
) -> (lay: Seq<(int, Point)>)
    requires
        ready(cat, g, w, h, pool, from),
        0 <= n < solutions(cat, g, pool, from).len(),
    ensures
        tiles(cat, g, pool, solutions(cat, g, pool, from)[n], lay),
    decreases pool.len(), 2int, 0int,
{
    lemma_free_count_zero(g);
    if pool.len() == 0 {
        let lay = Seq::<(int, Point)>::empty();
        assert forall|x: int, y: int| #[trigger] inside(g, x, y) implies g[y][x] != SPACE by {
            assert(!free(g, x, y));
        }
        assert(solutions(cat, g, pool, from)[n] == g);
        lay
    } else {
        assert(free_count(g) > 0) by (nonlinear_arith)
            requires
                free_count(g) == CELLS * pool.len(),
                pool.len() > 0,
        ;
        let (x, y) = choose|x: int, y: int| free(g, x, y);
        lemma_first_free_exists(g, w, h, from, x, y);
        lemma_pieces_tile(cat, g, w, h, pool, from, first_free(g, from), 0, n)
    }
}

/// The same, for the solutions that start with one of the pieces at
/// positions `i` and later.
pub proof fn lemma_pieces_tile(
    cat: Seq<Kind>,
    g: Seq<Seq<char>>,
    w: int,
    h: int,
    pool: Seq<usize>,
    from: Point,
    at: Point,
    i: int,
    n: int,
) -> (lay: Seq<(int, Point)>)
    requires
        ready(cat, g, w, h, pool, from),
        is_first_free(g, from, at),
        0 <= i,
        0 <= n < from_pieces(cat, g, pool, at, i).len(),
    ensures
        tiles(cat, g, pool, from_pieces(cat, g, pool, at, i)[n], lay),
    decreases pool.len(), 1int, pool.len() - i,
{
    let first = from_shapes(cat, g, pool, at, i, 0);
    let later = from_pieces(cat, g, pool, at, i + 1);
    assert(from_pieces(cat, g, pool, at, i) == first + later);
    if n < first.len() {
        assert((first + later)[n] == first[n]);
        lemma_shapes_tile(cat, g, w, h, pool, from, at, i, 0, n)
    } else {
        assert((first + later)[n] == later[n - first.len()]);
        lemma_pieces_tile(cat, g, w, h, pool, from, at, i + 1, n - first.len())
    }
}

/// The same, for the solutions that start with the piece at position `i`
/// in one of its orientations `j` and later.
pub proof fn lemma_shapes_tile(
    cat: Seq<Kind>,
    g: Seq<Seq<char>>,
    w: int,
    h: int,
    pool: Seq<usize>,
    from: Point,
    at: Point,
    i: int,
    j: int,
    n: int,
) -> (lay: Seq<(int, Point)>)
    requires
        ready(cat, g, w, h, pool, from),
        is_first_free(g, from, at),
        0 <= i < pool.len(),
        0 <= j,
        0 <= n < from_shapes(cat, g, pool, at, i, j).len(),
    ensures
        tiles(cat, g, pool, from_shapes(cat, g, pool, at, i, j)[n], lay),
    decreases pool.len(), 0int, cat[pool[i] as int].shapes.len() - j,
{
    let piece = cat[pool[i] as int];
    let first = from_shape(cat, g, pool, at, i, j);
    let later = from_shapes(cat, g, pool, at, i, j + 1);
    assert(from_shapes(cat, g, pool, at, i, j) == first + later);
    if n < first.len() {
        assert((first + later)[n] == first[n]);
        let fig = piece.shapes[j];
        let after = put(g, at, fig, piece.id);
        let rest = pool.remove(i);
        lemma_ready_step(cat, g, w, h, pool, from, at, i, j);
        let rest_lay = lemma_solutions_tile(cat, after, w, h, rest, at, n);
        assert(usable(piece));
        lemma_tiles_extend(cat, g, pool, at, i, j, first[n], rest_lay);
        rest_lay.insert(i, (j, at))
    } else {
        assert((first + later)[n] == later[n - first.len()]);
        lemma_shapes_tile(cat, g, w, h, pool, from, at, i, j + 1, n - first.len())
    }
}

/// Every orientation of every pooled piece is laid out as a canonical
/// form is.
pub open spec fn canonical_pool(cat: Seq<Kind>, pool: Seq<usize>) -> bool {
    forall|i: int, j: int|
        0 <= i < pool.len() && 0 <= j < cat[pool[i] as int].shapes.len() ==> is_canonical(
            (#[trigger] cat[pool[i] as int].shapes[j]),
        )
}

/// A tiling without one of its pieces is a tiling of the grid on which
/// that piece lies already.
pub proof fn lemma_tiles_shrink(
    cat: Seq<Kind>,
    g: Seq<Seq<char>>,
    pool: Seq<usize>,
    k: int,
    s: Seq<Seq<char>>,
    lay: Seq<(int, Point)>,
)
    requires
        tiles(cat, g, pool, s, lay),
        0 <= k < pool.len(),
        cat[pool[k] as int].id != SPACE,
    ensures
        tiles(
            cat,
            put(g, lay[k].1, cat[pool[k] as int].shapes[lay[k].0], cat[pool[k] as int].id),
            pool.remove(k),
            s,
            lay.remove(k),
        ),
{
    let piece = cat[pool[k] as int];
    let fig = piece.shapes[lay[k].0];
    let at = lay[k].1;
    let id = piece.id;
    let mid = put(g, at, fig, id);
    let rest = pool.remove(k);
    let left = lay.remove(k);
    assert forall|r: int, x: int, y: int| 0 <= r < rest.len() implies (#[trigger] laid(
        cat,
        rest,
        left,
        r,
        x,
        y,
    ) <==> laid(cat, pool, lay, if r < k { r } else { r + 1 }, x, y)) by {}
    assert forall|x: int, y: int| #[trigger]
        covers(at, fig, x, y) <==> laid(cat, pool, lay, k, x, y) by {}
    assert forall|r: int| 0 <= r < rest.len() implies 0 <= (#[trigger] left[r]).0
        < cat[rest[r] as int].shapes.len() && fits(
        mid,
        left[r].1,
        cat[rest[r] as int].shapes[left[r].0],
    ) by {
        let m = if r < k { r } else { r + 1 };
        let f = cat[pool[m] as int].shapes[lay[m].0];
        assert(0 <= lay[m].0 < cat[pool[m] as int].shapes.len() && fits(g, lay[m].1, f));
        assert forall|n: int| 0 <= n < f.len() implies free(
            mid,
            lay[m].1.x + (#[trigger] f[n]).x,
            lay[m].1.y + f[n].y,
        ) by {
            let x = lay[m].1.x + f[n].x;
            let y = lay[m].1.y + f[n].y;
            assert(free(g, x, y));
            assert(laid(cat, pool, lay, m, x, y));
            if m < k {
                assert(!(laid(cat, pool, lay, m, x, y) && laid(cat, pool, lay, k, x, y)));
            } else {
                assert(!(laid(cat, pool, lay, k, x, y) && laid(cat, pool, lay, m, x, y)));
            }
        }
    }
    assert forall|r: int, m: int, x: int, y: int| 0 <= r < m < rest.len() implies !(#[trigger] laid(
        cat,
        rest,
        left,
        r,
        x,
        y,
    ) && #[trigger] laid(cat, rest, left, m, x, y)) by {
        let pr = if r < k { r } else { r + 1 };
        let pm = if m < k { m } else { m + 1 };
        assert(!(laid(cat, pool, lay, pr, x, y) && laid(cat, pool, lay, pm, x, y)));
    }
    assert forall|r: int, x: int, y: int| 0 <= r < rest.len() && #[trigger] laid(
        cat,
        rest,
        left,
        r,
        x,
        y,
    ) implies s[y][x] == cat[rest[r] as int].id by {
        let m = if r < k { r } else { r + 1 };
        assert(laid(cat, pool, lay, m, x, y));
    }
    assert forall|x: int, y: int| #[trigger] inside(mid, x, y) implies under_piece(
        cat,
        rest,
        left,
        x,
        y,
    ) || (s[y][x] == mid[y][x] && mid[y][x] != SPACE) by {
        assert(inside(g, x, y));
        if covers(at, fig, x, y) {
            assert(laid(cat, pool, lay, k, x, y));
        } else if under_piece(cat, pool, lay, x, y) {
            let m = choose|m: int| 0 <= m < pool.len() && laid(cat, pool, lay, m, x, y);
            let r = if m < k { m } else { m - 1 };
            assert(laid(cat, rest, left, r, x, y));
        }
    }
    assert forall|y: int| 0 <= y < mid.len() implies (#[trigger] s[y]).len() == mid[y].len() by {
        assert(s[y].len() == g[y].len());
    }
}

/// Where the orientation `j` of the piece at position `i` yields a
/// solution, so do the orientations from an earlier one on.
pub proof fn lemma_among_shapes(
    cat: Seq<Kind>,
    g: Seq<Seq<char>>,
    pool: Seq<usize>,
    at: Point,
    i: int,
    first: int,
    j: int,
    n: int,
) -> (m: int)
    requires
        0 <= i < pool.len(),
        0 <= first <= j < cat[pool[i] as int].shapes.len(),
        0 <= n < from_shape(cat, g, pool, at, i, j).len(),
    ensures
        0 <= m < from_shapes(cat, g, pool, at, i, first).len(),
        from_shapes(cat, g, pool, at, i, first)[m] == from_shape(cat, g, pool, at, i, j)[n],
    decreases j - first,
{
    let head = from_shape(cat, g, pool, at, i, first);
    let tail = from_shapes(cat, g, pool, at, i, first + 1);
    assert(from_shapes(cat, g, pool, at, i, first) == head + tail);
    if first == j {
        assert((head + tail)[n] == head[n]);
        n
    } else {
        let m = lemma_among_shapes(cat, g, pool, at, i, first + 1, j, n);
        assert((head + tail)[head.len() + m] == tail[m]);
        head.len() + m
    }
}

/// Where the piece at position `i` yields a solution, so do the pieces
/// from an earlier position on.
pub proof fn lemma_among_pieces(
    cat: Seq<Kind>,
    g: Seq<Seq<char>>,
    pool: Seq<usize>,
    at: Point,
    first: int,
    i: int,
    n: int,
) -> (m: int)
    requires
        0 <= first <= i < pool.len(),
        0 <= n < from_shapes(cat, g, pool, at, i, 0).len(),
    ensures
        0 <= m < from_pieces(cat, g, pool, at, first).len(),
        from_pieces(cat, g, pool, at, first)[m] == from_shapes(cat, g, pool, at, i, 0)[n],
    decreases i - first,
{
    let head = from_shapes(cat, g, pool, at, first, 0);
    let tail = from_pieces(cat, g, pool, at, first + 1);
    assert(from_pieces(cat, g, pool, at, first) == head + tail);
    if first == i {
        assert((head + tail)[n] == head[n]);
        n
    } else {
        let m = lemma_among_pieces(cat, g, pool, at, first + 1, i, n);
        assert((head + tail)[head.len() + m] == tail[m]);
        head.len() + m
    }
}

/// The search is exhaustive: from a state that is `ready`, with a
/// catalog of canonical shapes, it finds every grid on which the pieces
/// of the pool tile the empty cells. The result is the place of the grid
/// among the solutions.
pub proof fn lemma_tiling_found(
    cat: Seq<Kind>,
    g: Seq<Seq<char>>,
    w: int,
    h: int,
    pool: Seq<usize>,
    from: Point,
    s: Seq<Seq<char>>,
    lay: Seq<(int, Point)>,
) -> (n: int)
    requires
        ready(cat, g, w, h, pool, from),
        canonical_pool(cat, pool),
        tiles(cat, g, pool, s, lay),
    ensures
        0 <= n < solutions(cat, g, pool, from).len(),
        solutions(cat, g, pool, from)[n] == s,
    decreases pool.len(),
{
    lemma_free_count_zero(g);
    if pool.len() == 0 {
        assert forall|y: int| 0 <= y < g.len() implies s[y] =~= g[y] by {
            assert forall|x: int| 0 <= x < g[y].len() implies s[y][x] == g[y][x] by {
                assert(inside(g, x, y));
                assert(!under_piece(cat, pool, lay, x, y));
            }
        }
        assert(s =~= g);
        0
    } else {
        assert(free_count(g) > 0) by (nonlinear_arith)
            requires
                free_count(g) == CELLS * pool.len(),
                pool.len() > 0,
        ;
        let (fx, fy) = choose|x: int, y: int| free(g, x, y);
        lemma_first_free_exists(g, w, h, from, fx, fy);
        let at = first_free(g, from);
        assert(inside(g, at.x as int, at.y as int));
        assert(under_piece(cat, pool, lay, at.x as int, at.y as int));
        let k = choose|k: int|
            0 <= k < pool.len() && laid(cat, pool, lay, k, at.x as int, at.y as int);
        let piece = cat[pool[k] as int];
        let j = lay[k].0;
        let a = lay[k].1;
        let fig = piece.shapes[j];
        assert(usable(piece));
        assert(is_canonical(fig));
        assert(fits(g, a, fig));
        let hit = choose|hit: int|
            0 <= hit < fig.len() && a.x + (#[trigger] fig[hit]).x == at.x && a.y + fig[hit].y
                == at.y;
        assert(fig[0] == origin());
        assert(free(g, a.x + fig[0].x, a.y + fig[0].y));
        assert(at_or_after(from, a.x as int, a.y as int));
        assert(at_or_after(at, a.x as int, a.y as int));
        if hit > 0 {
            assert(row_major()(fig[0], fig[hit]));
            assert(fig[0] != fig[hit]);
        }
        assert(a == at);
        lemma_tiles_shrink(cat, g, pool, k, s, lay);
        lemma_ready_step(cat, g, w, h, pool, from, at, k, j);
        let after = put(g, at, fig, piece.id);
        let rest = pool.remove(k);
        lemma_canonical_rest(cat, pool, k);
        let deep = lemma_tiling_found(cat, after, w, h, rest, at, s, lay.remove(k));
        assert(from_shape(cat, g, pool, at, k, j) == solutions(cat, after, rest, at));
        let among = lemma_among_shapes(cat, g, pool, at, k, 0, j, deep);
        lemma_among_pieces(cat, g, pool, at, 0, k, among)
    }
}

/// The letters of the pooled pieces differ from one another and are not
/// on the grid, and no piece holds the same orientation twice.
pub open spec fn distinct_pool(cat: Seq<Kind>, g: Seq<Seq<char>>, pool: Seq<usize>) -> bool {
    &&& forall|i: int, j: int|
        0 <= i < j < pool.len() ==> cat[#[trigger] pool[i] as int].id
            != cat[#[trigger] pool[j] as int].id
    &&& forall|i: int, x: int, y: int|
        0 <= i < pool.len() && #[trigger] inside(g, x, y) ==> g[y][x]
            != cat[#[trigger] pool[i] as int].id
    &&& forall|i: int|
        0 <= i < pool.len() ==> (#[trigger] cat[pool[i] as int]).shapes.no_duplicates()
}

/// The cells of the grid that are labelled `id` are those that the shape
/// covers.
pub open spec fn marked(s: Seq<Seq<char>>, id: char, at: Point, fig: Seq<Point>) -> bool {
    forall|x: int, y: int| #[trigger] inside(s, x, y) ==> (s[y][x] == id <==> covers(at, fig, x, y))
}

/// What holds of the shapes of a pool holds without one of its pieces.
pub proof fn lemma_canonical_rest(cat: Seq<Kind>, pool: Seq<usize>, i: int)
    requires
        canonical_pool(cat, pool),
        0 <= i < pool.len(),
    ensures
        canonical_pool(cat, pool.remove(i)),
{
    let rest = pool.remove(i);
    assert forall|a: int, b: int|
        0 <= a < rest.len() && 0 <= b < cat[rest[a] as int].shapes.len() implies is_canonical(
        #[trigger] cat[rest[a] as int].shapes[b],
    ) by {
        let p = if a < i { a } else { a + 1 };
        assert(rest[a] == pool[p]);
        assert(is_canonical(cat[pool[p] as int].shapes[b]));
    }
}

/// Where the letters of a pool differ from one another and from the
/// labels of the grid, those of the pool without one piece differ from
/// one another, from the letter of that piece, and from the labels of
/// the grid with that piece laid on it.
pub proof fn lemma_distinct_rest(
    cat: Seq<Kind>,
    g: Seq<Seq<char>>,
    pool: Seq<usize>,
    at: Point,
    i: int,
    j: int,
)
    requires
        distinct_pool(cat, g, pool),
        0 <= i < pool.len(),
    ensures
        distinct_pool(
            cat,
            put(g, at, cat[pool[i] as int].shapes[j], cat[pool[i] as int].id),
            pool.remove(i),
        ),
        forall|a: int|
            0 <= a < pool.remove(i).len() ==> cat[#[trigger] pool.remove(i)[a] as int].id
                != cat[pool[i] as int].id,
{
    let id = cat[pool[i] as int].id;
    let after = put(g, at, cat[pool[i] as int].shapes[j], id);
    let rest = pool.remove(i);
    assert forall|a: int| 0 <= a < rest.len() implies cat[#[trigger] rest[a] as int].id != id by {
        if a < i {
            assert(rest[a] == pool[a]);
            assert(cat[pool[a] as int].id != cat[pool[i] as int].id);
        } else {
            assert(rest[a] == pool[a + 1]);
            assert(cat[pool[i] as int].id != cat[pool[a + 1] as int].id);
        }
    }
    assert forall|a: int, b: int| 0 <= a < b < rest.len() implies cat[#[trigger] rest[a] as int].id
        != cat[#[trigger] rest[b] as int].id by {
        let pa = if a < i { a } else { a + 1 };
        let pb = if b < i { b } else { b + 1 };
        assert(rest[a] == pool[pa] && rest[b] == pool[pb]);
        assert(cat[pool[pa] as int].id != cat[pool[pb] as int].id);
    }
    assert forall|a: int, x: int, y: int|
        0 <= a < rest.len() && #[trigger] inside(after, x, y) implies after[y][x]
        != cat[#[trigger] rest[a] as int].id by {
        let pa = if a < i { a } else { a + 1 };
        assert(rest[a] == pool[pa]);
        assert(inside(g, x, y));
        assert(g[y][x] != cat[pool[pa] as int].id);
    }
    assert forall|a: int| 0 <= a < rest.len() implies (#[trigger] cat[rest[a] as int])
        .shapes.no_duplicates() by {
        let pa = if a < i { a } else { a + 1 };
        assert(rest[a] == pool[pa]);
        assert(cat[pool[pa] as int].shapes.no_duplicates());
    }
}

/// Two canonical shapes without repeated points that cover the same
/// cells from the same anchor are equal.
pub proof fn lemma_same_cover(at: Point, a: Seq<Point>, b: Seq<Point>)
    requires
        is_canonical(a),
        is_canonical(b),
        a.no_duplicates(),
        b.no_duplicates(),
        forall|x: int, y: int| covers(at, a, x, y) <==> covers(at, b, x, y),
    ensures
        a == b,
{
    assert forall|p: Point| a.contains(p) <==> b.contains(p) by {
        if a.contains(p) {
            let i = choose|i: int| 0 <= i < a.len() && a[i] == p;
            assert(covers(at, a, at.x + a[i].x, at.y + a[i].y));
            assert(covers(at, b, at.x + p.x, at.y + p.y));
            let j = choose|j: int|
                0 <= j < b.len() && at.x + (#[trigger] b[j]).x == at.x + p.x && at.y + b[j].y
                    == at.y + p.y;
            assert(b[j] == p);
        }
        if b.contains(p) {
            let i = choose|i: int| 0 <= i < b.len() && b[i] == p;
            assert(covers(at, b, at.x + b[i].x, at.y + b[i].y));
            assert(covers(at, a, at.x + p.x, at.y + p.y));
            let j = choose|j: int|
                0 <= j < a.len() && at.x + (#[trigger] a[j]).x == at.x + p.x && at.y + a[j].y
                    == at.y + p.y;
            assert(a[j] == p);
        }
    }
    lemma_same_members(a, b);
    lemma_row_major_total();
    lemma_sorted_unique(a, b, row_major());
}

/// A search does not touch cells that carry a letter of a piece outside
/// the pool.
pub proof fn lemma_letter_kept(
    cat: Seq<Kind>,
    g: Seq<Seq<char>>,
    w: int,
    h: int,
    pool: Seq<usize>,
    from: Point,
    n: int,
    id: char,
)
    requires
        ready(cat, g, w, h, pool, from),
        0 <= n < solutions(cat, g, pool, from).len(),
        id != SPACE,
        forall|i: int| 0 <= i < pool.len() ==> cat[#[trigger] pool[i] as int].id != id,
    ensures
        rect(solutions(cat, g, pool, from)[n], w, h),
        forall|x: int, y: int| #[trigger]
            inside(g, x, y) ==> (solutions(cat, g, pool, from)[n][y][x] == id <==> g[y][x] == id),
{
    let s = solutions(cat, g, pool, from)[n];
    let lay = lemma_solutions_tile(cat, g, w, h, pool, from, n);
    assert forall|x: int, y: int| #[trigger] inside(g, x, y) implies (s[y][x] == id <==> g[y][x]
        == id) by {
        if under_piece(cat, pool, lay, x, y) {
            let k = choose|k: int| 0 <= k < pool.len() && laid(cat, pool, lay, k, x, y);
            assert(laid(cat, pool, lay, k, x, y));
            let f = cat[pool[k] as int].shapes[lay[k].0];
            let m = choose|m: int|
                0 <= m < f.len() && lay[k].1.x + (#[trigger] f[m]).x == x && lay[k].1.y + f[m].y
                    == y;
            assert(free(g, lay[k].1.x + f[m].x, lay[k].1.y + f[m].y));
        }
    }
    assert forall|y: int| 0 <= y < h implies (#[trigger] s[y]).len() == w by {
        assert(s[y].len() == g[y].len());
    }
}

/// The search finds no grid twice, where the letters of the pooled
/// pieces differ from one another and are not on the grid, and no piece
/// holds the same orientation twice.
pub proof fn lemma_no_solution_twice(
    cat: Seq<Kind>,
    g: Seq<Seq<char>>,
    w: int,
    h: int,
    pool: Seq<usize>,
    from: Point,
)
    requires
        ready(cat, g, w, h, pool, from),
        canonical_pool(cat, pool),
        distinct_pool(cat, g, pool),
    ensures
        solutions(cat, g, pool, from).no_duplicates(),
    decreases pool.len(), 2int, 0int,
{
    if pool.len() > 0 {
        lemma_free_count_zero(g);
        assert(free_count(g) > 0) by (nonlinear_arith)
            requires
                free_count(g) == CELLS * pool.len(),
                pool.len() > 0,
        ;
        let (x, y) = choose|x: int, y: int| free(g, x, y);
        lemma_first_free_exists(g, w, h, from, x, y);
        lemma_no_piece_twice(cat, g, w, h, pool, from, first_free(g, from), 0);
    }
}

/// The same, for the solutions that start with one of the pieces at
/// positions `i` and later: none occurs twice, and each has the letter
/// of one of those pieces on the first empty cell.
pub proof fn lemma_no_piece_twice(
    cat: Seq<Kind>,
    g: Seq<Seq<char>>,
    w: int,
    h: int,
    pool: Seq<usize>,
    from: Point,
    at: Point,
    i: int,
)
    requires
        ready(cat, g, w, h, pool, from),
        canonical_pool(cat, pool),
        distinct_pool(cat, g, pool),
        is_first_free(g, from, at),
        0 <= i,
    ensures
        from_pieces(cat, g, pool, at, i).no_duplicates(),
        forall|n: int|
            0 <= n < from_pieces(cat, g, pool, at, i).len() ==> exists|k: int|
                i <= k < pool.len() && (#[trigger] from_pieces(
                    cat,
                    g,
                    pool,
                    at,
                    i,
                )[n])[at.y as int][at.x as int] == cat[pool[k] as int].id,
    decreases pool.len(), 1int, pool.len() - i,
{
    if i < pool.len() {
        let first = from_shapes(cat, g, pool, at, i, 0);
        let later = from_pieces(cat, g, pool, at, i + 1);
        let id = cat[pool[i] as int].id;
        lemma_no_shape_twice(cat, g, w, h, pool, from, at, i, 0);
        lemma_no_piece_twice(cat, g, w, h, pool, from, at, i + 1);
        assert(inside(g, at.x as int, at.y as int));
        assert forall|n: int| 0 <= n < first.len() implies (
        #[trigger] first[n])[at.y as int][at.x as int] == id by {
            let j = choose|j: int|
                0 <= j < cat[pool[i] as int].shapes.len() && marked(
                    first[n],
                    id,
                    at,
                    cat[pool[i] as int].shapes[j],
                ) && rect(first[n], w, h) && fits(g, at, cat[pool[i] as int].shapes[j]);
            let f = cat[pool[i] as int].shapes[j];
            assert(usable(cat[pool[i] as int]));
            assert(is_canonical(f));
            assert(f[0] == origin());
            assert(covers(at, f, at.x + f[0].x, at.y + f[0].y));
            assert(first[n][at.y as int].len() == w);
            assert(g[at.y as int].len() == w);
            assert(inside(first[n], at.x as int, at.y as int));
        }
        assert forall|a: int, b: int| 0 <= a < first.len() && 0 <= b < later.len() implies first[a]
            != later[b] by {
            let k = choose|k: int|
                i + 1 <= k < pool.len() && later[b][at.y as int][at.x as int]
                    == cat[pool[k] as int].id;
            assert(cat[pool[i] as int].id != cat[pool[k] as int].id);
        }
        lemma_no_dup_in_concat(first, later);
        let all = from_pieces(cat, g, pool, at, i);
        assert(all == first + later);
        assert forall|n: int| 0 <= n < all.len() implies exists|k: int|
            i <= k < pool.len() && (#[trigger] all[n])[at.y as int][at.x as int]
                == cat[pool[k] as int].id by {
            if n < first.len() {
                assert(all[n] == first[n]);
                assert(first[n][at.y as int][at.x as int] == cat[pool[i] as int].id);
            } else {
                assert(all[n] == later[n - first.len()]);
                let k = choose|k: int|
                    i + 1 <= k < pool.len() && later[n - first.len()][at.y as int][at.x as int]
                        == cat[pool[k] as int].id;
                assert(i <= k < pool.len() && all[n][at.y as int][at.x as int]
                    == cat[pool[k] as int].id);
            }
        }
    }
}

/// The same, for the solutions that start with the piece at position `i`
/// in one of its orientations `j` and later: none occurs twice, and in
/// each the letter of the piece marks one of those orientations at the
/// first empty cell.
pub proof fn lemma_no_shape_twice(
    cat: Seq<Kind>,
    g: Seq<Seq<char>>,
    w: int,
    h: int,
    pool: Seq<usize>,
    from: Point,
    at: Point,
    i: int,
    j: int,
)
    requires
        ready(cat, g, w, h, pool, from),
        canonical_pool(cat, pool),
        distinct_pool(cat, g, pool),
        is_first_free(g, from, at),
        0 <= i < pool.len(),
        0 <= j,
    ensures
        from_shapes(cat, g, pool, at, i, j).no_duplicates(),
        forall|n: int|
            0 <= n < from_shapes(cat, g, pool, at, i, j).len() ==> exists|m: int|
                j <= m < cat[pool[i] as int].shapes.len() && marked(
                    #[trigger] from_shapes(cat, g, pool, at, i, j)[n],
                    cat[pool[i] as int].id,
                    at,
                    cat[pool[i] as int].shapes[m],
                ) && rect(from_shapes(cat, g, pool, at, i, j)[n], w, h) && fits(
                    g,
                    at,
                    cat[pool[i] as int].shapes[m],
                ),
    decreases pool.len(), 0int, cat[pool[i] as int].shapes.len() - j,
{
    let piece = cat[pool[i] as int];
    if j < piece.shapes.len() {
        let id = piece.id;
        let fig = piece.shapes[j];
        let first = from_shape(cat, g, pool, at, i, j);
        let later = from_shapes(cat, g, pool, at, i, j + 1);
        let all = from_shapes(cat, g, pool, at, i, j);
        assert(all == first + later);
        assert(usable(piece));
        lemma_no_shape_twice(cat, g, w, h, pool, from, at, i, j + 1);
        if fits(g, at, fig) {
            let after = put(g, at, fig, id);
            let rest = pool.remove(i);
            lemma_ready_step(cat, g, w, h, pool, from, at, i, j);
            lemma_canonical_rest(cat, pool, i);
            lemma_distinct_rest(cat, g, pool, at, i, j);
            lemma_no_solution_twice(cat, after, w, h, rest, at);
            assert forall|n: int| 0 <= n < first.len() implies marked(
                #[trigger] first[n],
                id,
                at,
                fig,
            ) && rect(first[n], w, h) by {
                lemma_letter_kept(cat, after, w, h, rest, at, n, id);
                assert forall|x: int, y: int| #[trigger] inside(first[n], x, y) implies (
                first[n][y][x] == id <==> covers(at, fig, x, y)) by {
                    assert(first[n][y].len() == w);
                    assert(g[y].len() == w);
                    assert(inside(after, x, y));
                    assert(inside(g, x, y));
                    assert(g[y][x] != cat[pool[i] as int].id);
                }
            }
        } else {
            assert(first =~= Seq::empty());
        }
        assert forall|a: int, b: int| 0 <= a < first.len() && 0 <= b < later.len() implies first[a]
            != later[b] by {
            if first[a] == later[b] {
                let m = choose|m: int|
                    j + 1 <= m < piece.shapes.len() && marked(later[b], id, at, piece.shapes[m])
                        && rect(later[b], w, h) && fits(g, at, piece.shapes[m]);
                let other = piece.shapes[m];
                assert(marked(first[a], id, at, fig));
                assert forall|x: int, y: int| covers(at, fig, x, y) <==> covers(
                    at,
                    other,
                    x,
                    y,
                ) by {
                    if covers(at, fig, x, y) {
                        let c = choose|c: int|
                            0 <= c < fig.len() && at.x + (#[trigger] fig[c]).x == x && at.y
                                + fig[c].y == y;
                        assert(free(g, at.x + fig[c].x, at.y + fig[c].y));
                        assert(first[a][y].len() == w && g[y].len() == w);
                        assert(inside(first[a], x, y));
                    }
                    if covers(at, other, x, y) {
                        let c = choose|c: int|
                            0 <= c < other.len() && at.x + (#[trigger] other[c]).x == x && at.y
                                + other[c].y == y;
                        assert(free(g, at.x + other[c].x, at.y + other[c].y));
                        assert(first[a][y].len() == w && g[y].len() == w);
                        assert(inside(first[a], x, y));
                    }
                }
                assert(is_canonical(fig) && is_canonical(other));
                lemma_same_cover(at, fig, other);
                assert(piece.shapes[j] != piece.shapes[m]);
            }
        }
        lemma_no_dup_in_concat(first, later);
        assert forall|n: int| 0 <= n < all.len() implies exists|m: int|
            j <= m < piece.shapes.len() && marked(#[trigger] all[n], id, at, piece.shapes[m])
                && rect(all[n], w, h) && fits(g, at, piece.shapes[m]) by {
            if n < first.len() {
                assert(all[n] == first[n]);
                assert(marked(first[n], id, at, piece.shapes[j]) && rect(first[n], w, h) && fits(
                    g,
                    at,
                    piece.shapes[j],
                ));
            } else {
                assert(all[n] == later[n - first.len()]);
                let m = choose|m: int|
                    j + 1 <= m < piece.shapes.len() && marked(
                        later[n - first.len()],
                        id,
                        at,
                        piece.shapes[m],
                    ) && rect(later[n - first.len()], w, h) && fits(g, at, piece.shapes[m]);
                assert(j <= m < piece.shapes.len() && marked(all[n], id, at, piece.shapes[m]));
            }
        }
    }
}

} // verus!
