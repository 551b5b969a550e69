//! The backtracking search.
//!
//! The search always fills the first empty cell. For that cell it tries
//! each piece of the pool, in pool order, and each orientation of the
//! piece, in catalog order, anchored at the cell; where the shape fits it
//! goes on with the rest of the pool. A branch whose pool is empty has
//! found a solution.

use vstd::prelude::*;
use crate::board::Board;
use crate::grid::{
    at_or_after, filled_before, first_free, fits, free, free_count, is_first_free,
    lemma_free_count_zero, lemma_put_count, lemma_put_free, lemma_put_then_clear, put, rect, SPACE,
};
use crate::piece::{kinds, Kind, Piece};
use crate::point::Point;
use crate::pool::{follower, leader, lemma_remove_then_restore, Pool};
use crate::shape::distinct_points;

verus! {

/// The number of cells of every piece.
pub const CELLS: usize = 5;

/// The piece can take part in a search: its letter is not the label of
/// an empty cell, and each of its orientations has `CELLS` points, no two
/// of them equal.
pub open spec fn usable(piece: Kind) -> bool {
    &&& piece.id != SPACE
    &&& forall|j: int|
        0 <= j < piece.shapes.len() ==> (#[trigger] piece.shapes[j]).len() == CELLS
            && piece.shapes[j].no_duplicates()
}

/// Decides `usable`.
pub fn piece_usable(piece: &Piece) -> (r: bool)
    ensures
        r == usable(piece@),
{
    if piece.id == SPACE {
        return false;
    }
    let n = piece.figs.len();
    let mut j: usize = 0;
    while j < n
        invariant
            n == piece.figs@.len(),
            j <= n,
            forall|k: int|
                0 <= k < j ==> (#[trigger] piece@.shapes[k]).len() == CELLS
                    && piece@.shapes[k].no_duplicates(),
        decreases n - j,
    {
        let fig = &piece.figs[j];
        assert(piece@.shapes[j as int] == fig@);
        if fig.len() != CELLS || !distinct_points(fig) {
            return false;
        }
        j += 1;
    }
    true
}

/// The state from which a search can start at `from`: the grid has `w`
/// by `h` cells, the pool names usable pieces of the catalog, the empty
/// cells are exactly enough for them, and none lies before `from`.
pub open spec fn ready(
    cat: Seq<Kind>,
    g: Seq<Seq<char>>,
    w: int,
    h: int,
    pool: Seq<usize>,
    from: Point,
) -> bool {
    &&& rect(g, w, h)
    &&& w <= i32::MAX
    &&& h <= i32::MAX
    &&& forall|i: int|
        0 <= i < pool.len() ==> (#[trigger] pool[i]) < cat.len() && usable(cat[pool[i] as int])
    &&& free_count(g) == CELLS * pool.len()
    &&& filled_before(g, from)
    &&& 0 <= from.x < w
}

/// The solutions that the search finds from a state, in the order in
/// which it finds them: each is the grid as it stands when the pool is
/// empty.
pub open spec fn solutions(cat: Seq<Kind>, g: Seq<Seq<char>>, pool: Seq<usize>, from: Point) -> Seq<
    Seq<Seq<char>>,
>
    decreases pool.len(), 2int, 0int,
{
    if pool.len() == 0 {
        seq![g]
    } else {
        from_pieces(cat, g, pool, first_free(g, from), 0)
    }
}

/// The solutions that start with one of the pieces at positions `i` and
/// later of the pool, anchored at `at`.
pub open spec fn from_pieces(
    cat: Seq<Kind>,
    g: Seq<Seq<char>>,
    pool: Seq<usize>,
    at: Point,
    i: int,
) -> Seq<Seq<Seq<char>>>
    decreases pool.len(), 1int, pool.len() - i,
{
    if 0 <= i < pool.len() {
        from_shapes(cat, g, pool, at, i, 0) + from_pieces(cat, g, pool, at, i + 1)
    } else {
        Seq::empty()
    }
}

/// The solutions that start with the piece at position `i` of the pool
/// in one of its orientations `j` and later, anchored at `at`.
pub open spec fn from_shapes(
    cat: Seq<Kind>,
    g: Seq<Seq<char>>,
    pool: Seq<usize>,
    at: Point,
    i: int,
    j: int,
) -> Seq<Seq<Seq<char>>>
    decreases pool.len(), 0int, cat[pool[i] as int].shapes.len() - j,
{
    let piece = cat[pool[i] as int];
    if 0 <= i < pool.len() && 0 <= j < piece.shapes.len() {
        from_shape(cat, g, pool, at, i, j) + from_shapes(cat, g, pool, at, i, j + 1)
    } else {
        Seq::empty()
    }
}

/// The solutions that start with the piece at position `i` of the pool
/// in its orientation `j`, anchored at `at`: none if the shape does not
/// fit there.
pub open spec fn from_shape(
    cat: Seq<Kind>,
    g: Seq<Seq<char>>,
    pool: Seq<usize>,
    at: Point,
    i: int,
    j: int,
) -> Seq<Seq<Seq<char>>>
    decreases pool.len(), 0int, 0int,
{
    let piece = cat[pool[i] as int];
    if 0 <= i < pool.len() && 0 <= j < piece.shapes.len() && fits(g, at, piece.shapes[j]) {
        solutions(cat, put(g, at, piece.shapes[j], piece.id), pool.remove(i), at)
    } else {
        Seq::empty()
    }
}

/// Every board of the list is well formed and of the given size.
pub open spec fn all_sized(boards: Seq<Board>, w: int, h: int) -> bool {
    forall|i: int|
        0 <= i < boards.len() ==> (#[trigger] boards[i]).wf() && boards[i].width == w
            && boards[i].height == h
}

/// Laying a fitting orientation of a pooled piece on the first empty
/// cell leaves a state from which the search can go on.
pub proof fn lemma_ready_step(
    cat: Seq<Kind>,
    g: Seq<Seq<char>>,
    w: int,
    h: int,
    pool: Seq<usize>,
    from: Point,
    at: Point,
    i: int,
    j: int,
)
    requires
        ready(cat, g, w, h, pool, from),
        is_first_free(g, from, at),
        0 <= i < pool.len(),
        0 <= j < cat[pool[i] as int].shapes.len(),
        fits(g, at, cat[pool[i] as int].shapes[j]),
    ensures
        ready(
            cat,
            put(g, at, cat[pool[i] as int].shapes[j], cat[pool[i] as int].id),
            w,
            h,
            pool.remove(i),
            at,
        ),
{
    let piece = cat[pool[i] as int];
    let fig = piece.shapes[j];
    let after = put(g, at, fig, piece.id);
    let rest = pool.remove(i);
    assert(usable(piece));
    lemma_put_count(g, at, fig, piece.id);
    assert forall|x: int, y: int| #[trigger] free(after, x, y) implies at_or_after(at, x, y) by {
        lemma_put_free(g, at, fig, piece.id, x, y);
    }
    assert forall|k: int| 0 <= k < rest.len() implies (#[trigger] rest[k]) < cat.len() && usable(
        cat[rest[k] as int],
    ) by {
        if k < i {
            assert(rest[k] == pool[k]);
        } else {
            assert(rest[k] == pool[k + 1]);
        }
    }
    assert(CELLS * rest.len() == CELLS * pool.len() - CELLS) by (nonlinear_arith)
        requires
            rest.len() == pool.len() - 1,
    ;
    assert(g[at.y as int].len() == w);
}

/// An upper bound on the number of ways to pick, `n` times over, one of
/// the pieces that are left and one of its orientations, where no piece
/// has more than `m` of them.
pub open spec fn ways(n: nat, m: nat) -> nat
    decreases n,
{
    if n == 0 {
        1
    } else {
        n * m * ways((n - 1) as nat, m)
    }
}

/// No pooled piece has more than `m` orientations.
pub open spec fn at_most(cat: Seq<Kind>, pool: Seq<usize>, m: nat) -> bool {
    forall|i: int| 0 <= i < pool.len() ==> cat[#[trigger] pool[i] as int].shapes.len() <= m
}

/// What bounds the orientations of a pool bounds them without one of its
/// pieces.
pub proof fn lemma_at_most_rest(cat: Seq<Kind>, pool: Seq<usize>, m: nat, i: int)
    requires
        at_most(cat, pool, m),
        0 <= i < pool.len(),
    ensures
        at_most(cat, pool.remove(i), m),
{
    let rest = pool.remove(i);
    assert forall|a: int| 0 <= a < rest.len() implies cat[#[trigger] rest[a] as int].shapes.len()
        <= m by {
        if a < i {
            assert(rest[a] == pool[a]);
        } else {
            assert(rest[a] == pool[a + 1]);
        }
    }
}

/// A search finds no more solutions than there are ways to pick the
/// pieces and their orientations one after the other.
pub proof fn lemma_count_solutions(
    cat: Seq<Kind>,
    g: Seq<Seq<char>>,
    pool: Seq<usize>,
    from: Point,
    m: nat,
)
    requires
        at_most(cat, pool, m),
    ensures
        solutions(cat, g, pool, from).len() <= ways(pool.len(), m),
    decreases pool.len(), 2int, 0int,
{
    if pool.len() > 0 {
        lemma_count_pieces(cat, g, pool, first_free(g, from), 0, m);
    }
}

/// The same, for the solutions that start with one of the pieces at
/// positions `i` and later.
pub proof fn lemma_count_pieces(
    cat: Seq<Kind>,
    g: Seq<Seq<char>>,
    pool: Seq<usize>,
    at: Point,
    i: int,
    m: nat,
)
    requires
        at_most(cat, pool, m),
        0 <= i <= pool.len(),
        pool.len() > 0,
    ensures
        from_pieces(cat, g, pool, at, i).len() <= (pool.len() - i) * m * ways(
            (pool.len() - 1) as nat,
            m,
        ),
    decreases pool.len(), 1int, pool.len() - i,
{
    let each = ways((pool.len() - 1) as nat, m);
    let left = pool.len() - i;
    if i < pool.len() {
        let count = cat[pool[i] as int].shapes.len();
        let first = from_shapes(cat, g, pool, at, i, 0);
        let later = from_pieces(cat, g, pool, at, i + 1);
        assert(from_pieces(cat, g, pool, at, i) == first + later);
        lemma_count_shapes(cat, g, pool, at, i, 0, m);
        lemma_count_pieces(cat, g, pool, at, i + 1, m);
        assert(count * each <= m * each) by (nonlinear_arith)
            requires
                count <= m,
                0 <= each,
        ;
        assert(m * each + (left - 1) * m * each == left * m * each) by (nonlinear_arith);
    } else {
        assert(left * m * each == 0) by (nonlinear_arith)
            requires
                left == 0,
        ;
    }
}

/// The same, for the solutions that start with the piece at position `i`
/// in one of its orientations `j` and later.
pub proof fn lemma_count_shapes(
    cat: Seq<Kind>,
    g: Seq<Seq<char>>,
    pool: Seq<usize>,
    at: Point,
    i: int,
    j: int,
    m: nat,
)
    requires
        at_most(cat, pool, m),
        0 <= i < pool.len(),
        0 <= j <= cat[pool[i] as int].shapes.len(),
    ensures
        from_shapes(cat, g, pool, at, i, j).len() <= (cat[pool[i] as int].shapes.len() - j) * ways(
            (pool.len() - 1) as nat,
            m,
        ),
    decreases pool.len(), 0int, cat[pool[i] as int].shapes.len() - j,
{
    let piece = cat[pool[i] as int];
    let each = ways((pool.len() - 1) as nat, m);
    let left = piece.shapes.len() - j;
    if j < piece.shapes.len() {
        let first = from_shape(cat, g, pool, at, i, j);
        let later = from_shapes(cat, g, pool, at, i, j + 1);
        assert(from_shapes(cat, g, pool, at, i, j) == first + later);
        if fits(g, at, piece.shapes[j]) {
            lemma_at_most_rest(cat, pool, m, i);
            lemma_count_solutions(
                cat,
                put(g, at, piece.shapes[j], piece.id),
                pool.remove(i),
                at,
                m,
            );
        }
        assert(first.len() <= each);
        lemma_count_shapes(cat, g, pool, at, i, j + 1, m);
        assert(each + (left - 1) * each == left * each) by (nonlinear_arith);
    } else {
        assert(left * each == 0) by (nonlinear_arith)
            requires
                left == 0,
        ;
    }
}

/// The grids of a list of boards.
pub open spec fn grids(boards: Seq<Board>) -> Seq<Seq<Seq<char>>> {
    Seq::new(boards.len(), |i: int| boards[i].grid())
}

/// Runs the search from the state that `board` and `pool` hold, and
/// appends a copy of the board to `found` for each solution. The board
/// and the pool are left as they were.
pub fn search(
    cat: &Vec<Piece>,
    board: &mut Board,
    pool: &mut Pool,
    from: &Point,
    found: &mut Vec<Board>,
)
    requires
        old(board).wf(),
        old(pool).wf(),
        all_sized(old(found)@, old(board).width as int, old(board).height as int),
        ready(
            kinds(cat@),
            old(board).grid(),
            old(board).width as int,
            old(board).height as int,
            old(pool)@,
            *from,
        ),
    ensures
        final(board).wf(),
        final(board).width == old(board).width,
        final(board).height == old(board).height,
        final(board).grid() == old(board).grid(),
        final(pool).wf(),
        final(pool)@ == old(pool)@,
        final(pool).links() == old(pool).links(),
        all_sized(final(found)@, old(board).width as int, old(board).height as int),
        grids(final(found)@) == grids(old(found)@) + solutions(
            kinds(cat@),
            old(board).grid(),
            old(pool)@,
            *from,
        ),
    decreases old(pool)@.len(),
{
    let ghost g = board.grid();
    let ghost list = pool@;
    let ghost links = pool.links();
    let ghost had = grids(found@);
    let ghost w = board.width as int;
    let ghost h = board.height as int;
    if pool.is_empty() {
        let copy = board.snapshot();
        found.push(copy);
        assert(grids(found@) =~= had + seq![g]);
        return ;
    }
    proof {
        lemma_free_count_zero(g);
        assert(free_count(g) > 0) by (nonlinear_arith)
            requires
                free_count(g) == CELLS * list.len(),
                list.len() > 0,
        ;
        let (x, y) = choose|x: int, y: int| free(g, x, y);
        assert(free(g, x, y));
    }
    let at = board.find_space(from);
    let ghost goal = had + from_pieces(kinds(cat@), g, list, at, 0);
    let ghost mut i: int = 0;
    let mut prev: usize = 0;
    let mut cur: usize = pool.after(0);
    while cur != 0
        invariant
            board.wf(),
            board.width == w,
            board.height == h,
            board.grid() == g,
            all_sized(found@, w, h),
            pool.wf(),
            pool@ == list,
            pool.links() == links,
            list == old(pool)@,
            list.len() > 0,
            ready(kinds(cat@), g, w, h, list, *from),
            at == first_free(g, *from),
            is_first_free(g, *from, at),
            0 <= i <= list.len(),
            prev == leader(list, i),
            cur == follower(list, i),
            grids(found@) + from_pieces(kinds(cat@), g, list, at, i) == goal,
        decreases list.len() - i,
    {
        assert(i < list.len());
        assert(list[i] == cur);
        assert(list.index_of(cur) == i);
        proof {
            lemma_remove_then_restore(links, list, i);
        }
        pool.remove(cur, prev);
        let ghost rest = list.remove(i);
        let ghost unlinked = pool.links();
        let piece = &cat[cur];
        let n = piece.figs.len();
        let ghost tail = from_pieces(kinds(cat@), g, list, at, i + 1);
        let mut j: usize = 0;
        while j < n
            invariant
                board.wf(),
                board.width == w,
                board.height == h,
                board.grid() == g,
                all_sized(found@, w, h),
                pool.wf(),
                pool@ == rest,
                pool.links() == unlinked,
                rest == list.remove(i),
                list == old(pool)@,
                ready(kinds(cat@), g, w, h, list, *from),
                is_first_free(g, *from, at),
                0 <= i < list.len(),
                list[i] == cur,
                piece@ == kinds(cat@)[cur as int],
                n == piece.figs@.len(),
                n == piece@.shapes.len(),
                j <= n,
                tail == from_pieces(kinds(cat@), g, list, at, i + 1),
                grids(found@) + from_shapes(kinds(cat@), g, list, at, i, j as int) + tail == goal,
            decreases n - j,
        {
            let fig = &piece.figs[j];
            assert(piece@.shapes[j as int] == fig@);
            let ghost before = grids(found@);
            let ghost this = from_shape(kinds(cat@), g, list, at, i, j as int);
            let ghost later = from_shapes(kinds(cat@), g, list, at, i, j + 1);
            assert(from_shapes(kinds(cat@), g, list, at, i, j as int) == this + later);
            if board.check(&at, fig) {
                proof {
                    lemma_ready_step(kinds(cat@), g, w, h, list, *from, at, i, j as int);
                    lemma_put_then_clear(g, at, fig@, piece.id);
                }
                board.place(&at, fig, piece.id);
                search(cat, board, pool, &at, found);
                board.clear(&at, fig);
                assert(grids(found@) == before + this);
            } else {
                assert(this =~= Seq::empty());
                assert(grids(found@) =~= before + this);
            }
            assert(grids(found@) + later + tail =~= before + (this + later) + tail);
            j += 1;
        }
        let ghost none = from_shapes(kinds(cat@), g, list, at, i, n as int);
        assert(none =~= Seq::empty());
        assert(grids(found@) + tail =~= grids(found@) + none + tail);
        proof {
            if prev != 0 {
                assert(rest[i - 1] == prev);
                assert(rest.index_of(prev) == i - 1);
            }
        }
        pool.restore(cur, prev);
        prev = cur;
        cur = pool.after(prev);
        proof {
            i = i + 1;
        }
    }
    assert(i == list.len());
    assert(from_pieces(kinds(cat@), g, list, at, i) =~= Seq::empty());
    assert(grids(found@) =~= goal);
}

} // verus!
