//! The board: the grid in memory, with placement and the scan for the
//! next empty cell.

use vstd::prelude::*;
use crate::grid::{
    at_or_after, covers, filled_before, first_free, fits, free, free_count, inside, is_first_free,
    label, lands, lemma_first_free_unique, lemma_put_step, lemma_with_cell_count, put, rect,
    row_free, with_cell,
    HOLE, OUTSIDE, SPACE,
};
use crate::point::Point;

verus! {

/// A rectangular board of labelled cells.
pub struct Board {
    /// Number of cells in a row.
    pub width: i32,
    /// Number of rows.
    pub height: i32,
    /// The labels, row by row.
    pub cells: Vec<Vec<char>>,
}

/// The position belongs to the two-by-two block at the centre of a
/// board of the given size.
pub open spec fn in_centre(w: int, h: int, x: int, y: int) -> bool {
    (x == w / 2 - 1 || x == w / 2) && (y == h / 2 - 1 || y == h / 2)
}

/// The grid of a new board: all cells empty, but for the centre block of
/// a board of 64 cells, which is blocked.
pub open spec fn fresh(w: int, h: int) -> Seq<Seq<char>> {
    Seq::new(
        h as nat,
        |y: int|
            Seq::new(
                w as nat,
                |x: int|
                    if w * h == 64 && in_centre(w, h, x, y) {
                        HOLE
                    } else {
                        SPACE
                    },
            ),
    )
}

/// The sizes for which a board can be made: no negative side, and room
/// for the centre block where the area calls for one.
pub open spec fn can_make(w: int, h: int) -> bool {
    0 <= w && 0 <= h && (w * h == 64 ==> w >= 2 && h >= 2)
}

impl Board {
    /// The labels as a grid of rows.
    pub open spec fn grid(&self) -> Seq<Seq<char>> {
        Seq::new(self.cells@.len(), |y: int| self.cells@[y]@)
    }

    /// The rows match the recorded size.
    pub open spec fn wf(&self) -> bool {
        0 <= self.width && 0 <= self.height && rect(
            self.grid(),
            self.width as int,
            self.height as int,
        )
    }

    /// Makes the board of the given size, with the centre block blocked
    /// if the area is 64.
    pub fn new(width: i32, height: i32) -> (b: Board)
        requires
            can_make(width as int, height as int),
        ensures
            b.wf(),
            b.width == width,
            b.height == height,
            b.grid() == fresh(width as int, height as int),
    {
        assert(0 <= width * height <= 0x7fff_ffff * 0x7fff_ffff) by (nonlinear_arith)
            requires
                0 <= width <= 0x7fff_ffff,
                0 <= height <= 0x7fff_ffff,
        ;
        let area: i64 = (width as i64) * (height as i64);
        let holed = area == 64;
        let cx = width / 2;
        let cy = height / 2;
        let mut cells: Vec<Vec<char>> = Vec::new();
        let mut y: i32 = 0;
        while y < height
            invariant
                0 <= y <= height,
                0 <= width,
                cx == width / 2,
                cy == height / 2,
                holed == (width * height == 64),
                cells@.len() == y,
                forall|j: int|
                    0 <= j < y ==> (#[trigger] cells@[j])@ == fresh(width as int, height as int)[j],
            decreases height - y,
        {
            let mut row: Vec<char> = Vec::new();
            let mut x: i32 = 0;
            while x < width
                invariant
                    0 <= x <= width,
                    0 <= y < height,
                    cx == width / 2,
                    cy == height / 2,
                    holed == (width * height == 64),
                    row@.len() == x,
                    forall|i: int|
                        0 <= i < x ==> #[trigger] row@[i] == fresh(
                            width as int,
                            height as int,
                        )[y as int][i],
                decreases width - x,
            {
                let blocked = holed && (x == cx - 1 || x == cx) && (y == cy - 1 || y == cy);
                row.push(if blocked { HOLE } else { SPACE });
                x += 1;
            }
            assert(row@ =~= fresh(width as int, height as int)[y as int]);
            cells.push(row);
            y += 1;
        }
        let b = Board { width, height, cells };
        assert(b.grid() =~= fresh(width as int, height as int));
        b
    }

    /// The label at `(x, y)`, or `OUTSIDE` for a position off the board.
    pub fn at(&self, x: i32, y: i32) -> (c: char)
        requires
            self.wf(),
        ensures
            c == label(self.grid(), x as int, y as int),
    {
        if x >= 0 && x < self.width && y >= 0 && y < self.height {
            assert(self.grid()[y as int] == self.cells@[y as int]@);
            return self.cells[y as usize][x as usize];
        }
        OUTSIDE
    }

    /// Whether the shape, anchored at `xy`, lies on empty cells only.
    pub fn check(&self, xy: &Point, fig: &Vec<Point>) -> (ok: bool)
        requires
            self.wf(),
        ensures
            ok == fits(self.grid(), *xy, fig@),
    {
        let n = fig.len();
        let mut i: usize = 0;
        while i < n
            invariant
                self.wf(),
                n == fig.len(),
                i <= n,
                forall|j: int|
                    0 <= j < i ==> free(
                        self.grid(),
                        xy.x + (#[trigger] fig@[j]).x,
                        xy.y + fig@[j].y,
                    ),
            decreases n - i,
        {
            let x: i64 = xy.x as i64 + fig[i].x as i64;
            let y: i64 = xy.y as i64 + fig[i].y as i64;
            let on_board = 0 <= x && x < self.width as i64 && 0 <= y && y < self.height as i64;
            assert(on_board ==> self.grid()[y as int] == self.cells@[y as int]@);
            let empty = on_board && self.cells[y as usize][x as usize] == SPACE;
            if !empty {
                assert(!free(self.grid(), xy.x + fig@[i as int].x, xy.y + fig@[i as int].y));
                return false;
            }
            i += 1;
        }
        true
    }

    /// Labels the cells that the shape covers, anchored at `xy`, with
    /// `id`.
    pub fn place(&mut self, xy: &Point, fig: &Vec<Point>, id: char)
        requires
            old(self).wf(),
            lands(old(self).grid(), *xy, fig@),
        ensures
            final(self).wf(),
            final(self).width == old(self).width,
            final(self).height == old(self).height,
            final(self).grid() == put(old(self).grid(), *xy, fig@, id),
    {
        let ghost before = self.grid();
        let n = fig.len();
        let mut i: usize = 0;
        assert(self.grid() =~= put(before, *xy, fig@.take(0), id)) by {
            assert forall|y: int| 0 <= y < before.len() implies before[y] =~= put(
                before,
                *xy,
                fig@.take(0),
                id,
            )[y] by {}
        }
        while i < n
            invariant
                n == fig.len(),
                i <= n,
                self.wf(),
                self.width == old(self).width,
                self.height == old(self).height,
                before == old(self).grid(),
                rect(before, self.width as int, self.height as int),
                lands(before, *xy, fig@),
                self.grid() == put(before, *xy, fig@.take(i as int), id),
            decreases n - i,
        {
            let ghost p = fig@[i as int];
            assert(inside(before, xy.x + p.x, xy.y + p.y));
            assert(before[xy.y + p.y].len() == self.width);
            let x = xy.x + fig[i].x;
            let y = xy.y + fig[i].y;
            let ghost was = self.grid();
            assert(was[y as int].len() == before[y as int].len());
            self.set(x as usize, y as usize, id);
            proof {
                lemma_put_step(before, *xy, fig@, i as int, id);
            }
            i += 1;
        }
        assert(fig@.take(n as int) =~= fig@);
    }

    /// Empties the cells that the shape covers, anchored at `xy`.
    pub fn clear(&mut self, xy: &Point, fig: &Vec<Point>)
        requires
            old(self).wf(),
            lands(old(self).grid(), *xy, fig@),
        ensures
            final(self).wf(),
            final(self).width == old(self).width,
            final(self).height == old(self).height,
            final(self).grid() == put(old(self).grid(), *xy, fig@, SPACE),
    {
        self.place(xy, fig, SPACE);
    }

    /// The first empty cell at or after `xy`, scanning each row from
    /// left to right and the rows from top to bottom.
    pub fn find_space(&self, xy: &Point) -> (p: Point)
        requires
            self.wf(),
            0 <= xy.x < self.width,
            exists|x: int, y: int| free(self.grid(), x, y) && at_or_after(*xy, x, y),
        ensures
            is_first_free(self.grid(), *xy, p),
            p == first_free(self.grid(), *xy),
    {
        let mut x = xy.x;
        let mut y = xy.y;
        let ghost (fx, fy) = choose|x: int, y: int|
            free(self.grid(), x, y) && at_or_after(*xy, x, y);
        while self.at(x, y) != SPACE
            invariant
                self.wf(),
                0 <= x < self.width,
                at_or_after(*xy, x as int, y as int),
                free(self.grid(), fx, fy),
                at_or_after(Point { x, y }, fx, fy),
                forall|cx: int, cy: int|
                    #[trigger] free(self.grid(), cx, cy) && at_or_after(*xy, cx, cy)
                        ==> at_or_after(Point { x, y }, cx, cy),
            decreases self.height - y, self.width - x,
        {
            assert(self.grid()[fy].len() == self.width);
            assert(!free(self.grid(), x as int, y as int));
            let ghost was = Point { x, y };
            assert((x + 1) % (self.width as int) == if x + 1 < self.width {
                x + 1
            } else {
                0
            }) by (nonlinear_arith)
                requires
                    0 <= x < self.width,
            ;
            x = (x + 1) % self.width;
            if x == 0 {
                y += 1;
            }
            let ghost now = Point { x, y };
            assert forall|cx: int, cy: int|
                #[trigger] free(self.grid(), cx, cy) && at_or_after(*xy, cx, cy) implies at_or_after(
                now,
                cx,
                cy,
            ) by {
                assert(at_or_after(was, cx, cy));
                assert(self.grid()[cy].len() == self.width);
            }
        }
        let p = Point { x, y };
        assert(inside(self.grid(), x as int, y as int));
        proof {
            lemma_first_free_unique(self.grid(), *xy, p, p);
        }
        p
    }

    /// The number of empty cells.
    pub fn count_free(&self) -> (n: u64)
        requires
            self.wf(),
        ensures
            n == free_count(self.grid()),
    {
        let ghost g = self.grid();
        let h = self.cells.len();
        let mut n: u64 = 0;
        let mut y: usize = 0;
        assert(g.take(0) =~= Seq::<Seq<char>>::empty());
        while y < h
            invariant
                self.wf(),
                g == self.grid(),
                h == g.len(),
                y <= h,
                n == free_count(g.take(y as int)),
                n <= y * self.width,
            decreases h - y,
        {
            let row = &self.cells[y];
            assert(row@ == g[y as int]);
            let w = row.len();
            let ghost base = n;
            let mut x: usize = 0;
            assert(row@.take(0) =~= Seq::<char>::empty());
            assert((y + 1) * self.width <= 0x7fff_ffff * 0x7fff_ffff) by (nonlinear_arith)
                requires
                    y < h,
                    h <= 0x7fff_ffff,
                    0 <= self.width <= 0x7fff_ffff,
            ;
            assert((y + 1) * self.width == y * self.width + self.width) by (nonlinear_arith);
            while x < w
                invariant
                    w == row@.len(),
                    w == self.width,
                    x <= w,
                    n == base + row_free(row@.take(x as int)),
                    base <= y * self.width,
                    y * self.width + self.width <= 0x7fff_ffff * 0x7fff_ffff,
                    n <= base + x,
                decreases w - x,
            {
                assert(row@.take(x + 1).drop_last() =~= row@.take(x as int));
                if row[x] == SPACE {
                    n += 1;
                }
                x += 1;
            }
            assert(row@.take(w as int) =~= row@);
            assert(g.take(y + 1).drop_last() =~= g.take(y as int));
            y += 1;
        }
        assert(g.take(h as int) =~= g);
        n
    }

    /// Whether no empty cell comes before `from` in row-major order.
    pub fn filled_up_to(&self, from: &Point) -> (r: bool)
        requires
            self.wf(),
        ensures
            r == filled_before(self.grid(), *from),
    {
        let ghost g = self.grid();
        let h = self.cells.len();
        let mut y: usize = 0;
        while y < h
            invariant
                self.wf(),
                g == self.grid(),
                h == g.len(),
                y <= h,
                forall|cx: int, cy: int|
                    #[trigger] free(g, cx, cy) && cy < y ==> at_or_after(*from, cx, cy),
            decreases h - y,
        {
            let row = &self.cells[y];
            assert(row@ == g[y as int]);
            let w = row.len();
            let mut x: usize = 0;
            while x < w
                invariant
                    self.wf(),
                    g == self.grid(),
                    y < h,
                    h == g.len(),
                    row@ == g[y as int],
                    w == row@.len(),
                    x <= w,
                    forall|cx: int, cy: int|
                        #[trigger] free(g, cx, cy) && (cy < y || (cy == y && cx < x))
                            ==> at_or_after(*from, cx, cy),
                decreases w - x,
            {
                let later = (y as i64) > (from.y as i64) || ((y as i64) == (from.y as i64) && (
                x as i64) >= (from.x as i64));
                if row[x] == SPACE && !later {
                    assert(free(g, x as int, y as int));
                    return false;
                }
                x += 1;
            }
            y += 1;
        }
        true
    }

    /// A copy of the board as it stands.
    pub fn snapshot(&self) -> (b: Board)
        requires
            self.wf(),
        ensures
            b.wf(),
            b.width == self.width,
            b.height == self.height,
            b.grid() == self.grid(),
    {
        let mut cells: Vec<Vec<char>> = Vec::new();
        let h = self.cells.len();
        let mut y: usize = 0;
        while y < h
            invariant
                h == self.cells@.len(),
                y <= h,
                cells@.len() == y,
                forall|j: int| 0 <= j < y ==> (#[trigger] cells@[j])@ == self.cells@[j]@,
            decreases h - y,
        {
            let src = &self.cells[y];
            let w = src.len();
            let mut row: Vec<char> = Vec::new();
            let mut x: usize = 0;
            while x < w
                invariant
                    w == src@.len(),
                    x <= w,
                    row@.len() == x,
                    forall|i: int| 0 <= i < x ==> row@[i] == src@[i],
                decreases w - x,
            {
                row.push(src[x]);
                x += 1;
            }
            assert(row@ =~= src@);
            cells.push(row);
            y += 1;
        }
        let b = Board { width: self.width, height: self.height, cells };
        assert(b.grid() =~= self.grid());
        b
    }

    /// Relabels the cell at `(x, y)`.
    fn set(&mut self, x: usize, y: usize, c: char)
        requires
            old(self).wf(),
            inside(old(self).grid(), x as int, y as int),
        ensures
            final(self).wf(),
            final(self).width == old(self).width,
            final(self).height == old(self).height,
            final(self).grid() == with_cell(old(self).grid(), x as int, y as int, c),
    {
        self.cells[y][x] = c;
        assert(self.grid() =~= with_cell(old(self).grid(), x as int, y as int, c));
    }
}

/// The grid of `w` by `h` cells that are all empty.
pub open spec fn blank(w: int, h: int) -> Seq<Seq<char>> {
    Seq::new(h as nat, |y: int| Seq::new(w as nat, |x: int| SPACE))
}

/// A row of empty cells counts as many as it has.
pub proof fn lemma_blank_row(row: Seq<char>)
    requires
        forall|x: int| 0 <= x < row.len() ==> row[x] == SPACE,
    ensures
        row_free(row) == row.len(),
    decreases row.len(),
{
    if row.len() > 0 {
        lemma_blank_row(row.drop_last());
    }
}

/// A grid of empty cells counts as many as it has.
pub proof fn lemma_blank_count(w: int, h: int)
    requires
        0 <= w,
        0 <= h,
    ensures
        free_count(blank(w, h)) == w * h,
    decreases h,
{
    if h > 0 {
        lemma_blank_count(w, h - 1);
        assert(blank(w, h).drop_last() =~= blank(w, h - 1));
        lemma_blank_row(blank(w, h).last());
        assert((h - 1) * w + w == w * h) by (nonlinear_arith);
        assert(w * (h - 1) == (h - 1) * w) by (nonlinear_arith);
    } else {
        assert(w * h == 0) by (nonlinear_arith)
            requires
                h == 0,
        ;
    }
}

/// A new board has as many empty cells as it has cells, less the four
/// of the centre block where the area is 64.
pub proof fn lemma_fresh_count(w: int, h: int)
    requires
        can_make(w, h),
    ensures
        free_count(fresh(w, h)) == if w * h == 64 {
            60int
        } else {
            w * h
        },
{
    lemma_blank_count(w, h);
    if w * h == 64 {
        let cx = w / 2;
        let cy = h / 2;
        let a = blank(w, h);
        let b = with_cell(a, cx - 1, cy - 1, HOLE);
        let c = with_cell(b, cx, cy - 1, HOLE);
        let d = with_cell(c, cx - 1, cy, HOLE);
        let e = with_cell(d, cx, cy, HOLE);
        lemma_with_cell_count(a, cx - 1, cy - 1, HOLE);
        lemma_with_cell_count(b, cx, cy - 1, HOLE);
        lemma_with_cell_count(c, cx - 1, cy, HOLE);
        lemma_with_cell_count(d, cx, cy, HOLE);
        assert forall|y: int| 0 <= y < h implies e[y] =~= fresh(w, h)[y] by {}
        assert(e =~= fresh(w, h));
    } else {
        assert forall|y: int| 0 <= y < h implies blank(w, h)[y] =~= fresh(w, h)[y] by {}
        assert(blank(w, h) =~= fresh(w, h));
    }
}

} // verus!
