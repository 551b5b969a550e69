//! The solver: the board, the catalog of pieces and the pool, and the
//! text that is shown for each solution.

use vstd::prelude::*;
use vstd::string::StringExecFns;
use crate::board::{can_make, fresh, Board};
use crate::catalog::{
    drawn_piece, full_pool, lemma_canonical_catalog, lemma_catalog_count, lemma_catalog_shapes,
    lemma_letters, lemma_start_ready, letters, the_catalog, PIECES, WAYS_MAX,
};
use crate::config::{accepted, texts};
use crate::piece::{kinds, raw_shape, Kind, Piece};
use crate::point::Point;
use crate::pool::{chain, Pool};
use crate::render::picture;
use crate::search::{
    all_sized, grids, lemma_count_solutions, piece_usable, ready, search, solutions, usable, CELLS,
};
use crate::shape::origin;
use crate::text::{decimal, push_char, push_decimal, push_digits};
use crate::tiling::canonical_pool;

verus! {

/// The text shown for solution number `count` on a board `height` rows
/// high: from the second solution on, the sequence that moves the cursor
/// up to the first line of the picture before; then the picture; then
/// the number.
pub open spec fn frame_text(count: int, height: int, drawing: Seq<char>) -> Seq<char> {
    (if count > 1 {
        seq!['\x1b', '['] + decimal(2 * height + 2) + seq!['A']
    } else {
        Seq::empty()
    }) + drawing + decimal(count)
}

/// The texts shown for a list of solutions on a board of `w` by `h`
/// cells, where `before` solutions were shown already: the numbers go on
/// from `before + 1`.
pub open spec fn frame_texts(found: Seq<Seq<Seq<char>>>, before: int, w: int, h: int) -> Seq<
    Seq<char>,
> {
    Seq::new(found.len(), |k: int| frame_text(before + k + 1, h, picture(found[k], w, h)))
}

/// The text shown for solution number `count`.
pub fn frame(count: u128, height: i32, drawing: &str) -> (s: String)
    ensures
        s@ == frame_text(count as int, height as int, drawing@),
{
    let mut s = String::new();
    if count > 1 {
        push_char(&mut s, '\x1b');
        push_char(&mut s, '[');
        push_decimal(&mut s, 2 * (height as i64) + 2);
        push_char(&mut s, 'A');
    }
    s.append(drawing);
    push_digits(&mut s, count);
    s
}

/// The state of a run: the board, the catalog, and the pool of the
/// pieces that are not on the board.
pub struct Solver {
    pub board: Board,
    /// The number of solutions shown so far.
    pub solutions: u128,
    /// The catalog. Entry `0` stands for no piece; the pool names the
    /// others by their index.
    pub pieces: Vec<Piece>,
    pub pool: Pool,
}

impl Solver {
    /// The board and the pool are well formed.
    pub open spec fn wf(&self) -> bool {
        self.board.wf() && self.pool.wf()
    }

    /// The catalog as the search sees it.
    pub open spec fn catalog(&self) -> Seq<Kind> {
        kinds(self.pieces@)
    }

    /// A search can start at `from`.
    pub open spec fn ready(&self, from: Point) -> bool {
        self.wf() && ready(
            self.catalog(),
            self.board.grid(),
            self.board.width as int,
            self.board.height as int,
            self.pool@,
            from,
        )
    }

    /// The solutions that a search from `from` finds.
    pub open spec fn found(&self, from: Point) -> Seq<Seq<Seq<char>>> {
        solutions(self.catalog(), self.board.grid(), self.pool@, from)
    }

    /// Board, catalog and pool of the two solvers are the same.
    pub open spec fn same_state(&self, other: &Solver) -> bool {
        &&& self.board.width == other.board.width
        &&& self.board.height == other.board.height
        &&& self.board.grid() == other.board.grid()
        &&& self.pieces == other.pieces
        &&& self.pool@ == other.pool@
        &&& self.pool.links() == other.pool.links()
    }

    /// The solver for a board of the given size, with all twelve pieces
    /// in the pool and no solution counted. The first piece keeps one
    /// orientation if the board is square and two if it is not. On a
    /// board of an accepted size the search can start at the top left
    /// corner; it finds no more than `WAYS_MAX` solutions.
    pub fn new(width: i32, height: i32) -> (s: Solver)
        requires
            can_make(width as int, height as int),
        ensures
            s.wf(),
            s.board.width == width,
            s.board.height == height,
            s.board.grid() == fresh(width as int, height as int),
            s.solutions == 0,
            s.pool@ == full_pool(),
            s.pool.links() == chain(PIECES as nat),
            s.catalog() == the_catalog(width == height),
            s.catalog()[1].shapes.len() == (if width == height {
                1int
            } else {
                2int
            }),
            canonical_pool(s.catalog(), s.pool@),
            accepted(width as int, height as int) ==> s.ready(origin()),
            s.found(origin()).len() <= WAYS_MAX,
    {
        let board = Board::new(width, height);
        let pool = Pool::new(PIECES);
        let mut pieces: Vec<Piece> = Vec::new();
        let none: Vec<Vec<i32>> = Vec::new();
        assert(raw_shape(none@) =~= Seq::<Point>::empty());
        pieces.push(Piece::new('!', none));
        let ids = "FLINPTUVWXYZ";
        proof {
            lemma_letters();
        }
        let ghost cat = the_catalog(width == height);
        assert(pieces@[0]@ == cat[0]);
        let mut i: usize = 0;
        while i < PIECES
            invariant
                i <= PIECES,
                ids@ == letters(),
                ids@.len() == PIECES,
                cat == the_catalog(width == height),
                pieces@.len() == i + 1,
                forall|k: int| 0 <= k <= i ==> (#[trigger] pieces@[k])@ == cat[k],
            decreases PIECES - i,
        {
            let id = ids.get_char(i);
            proof {
                lemma_letters();
            }
            let mut piece = drawn_piece(id);
            if i == 0 {
                piece.limit(if width == height { 1 } else { 2 });
            }
            assert(piece@ == cat[i + 1]);
            pieces.push(piece);
            i += 1;
        }
        let s = Solver { board, solutions: 0, pieces, pool };
        proof {
            assert(s.catalog() =~= cat);
            lemma_canonical_catalog(width == height);
            lemma_catalog_shapes(1, width == height);
            lemma_catalog_count(width == height);
            lemma_count_solutions(cat, s.board.grid(), s.pool@, origin(), 8);
            if accepted(width as int, height as int) {
                lemma_start_ready(width as int, height as int);
            }
        }
        s
    }

    /// Decides `ready`.
    pub fn is_ready(&self, from: &Point) -> (r: bool)
        requires
            self.wf(),
        ensures
            r == self.ready(*from),
    {
        if from.x < 0 || from.x >= self.board.width {
            return false;
        }
        let list = self.pool.to_vec();
        let n = list.len();
        let mut i: usize = 0;
        while i < n
            invariant
                n == list@.len(),
                list@ == self.pool@,
                i <= n,
                forall|k: int|
                    0 <= k < i ==> (#[trigger] list@[k]) < self.catalog().len() && usable(
                        self.catalog()[list@[k] as int],
                    ),
            decreases n - i,
        {
            if list[i] >= self.pieces.len() || !piece_usable(&self.pieces[list[i]]) {
                return false;
            }
            i += 1;
        }
        let count = self.board.count_free();
        if count as u128 != (CELLS as u128) * (n as u128) {
            return false;
        }
        self.board.filled_up_to(from)
    }

    /// All the ways to fill the empty cells of the board with the pieces
    /// of the pool, as copies of the filled board, in the order of the
    /// search from `from`. The solver is left as it was.
    pub fn search(&mut self, from: &Point) -> (found: Vec<Board>)
        requires
            old(self).ready(*from),
        ensures
            final(self).ready(*from),
            final(self).same_state(old(self)),
            final(self).solutions == old(self).solutions,
            all_sized(found@, old(self).board.width as int, old(self).board.height as int),
            grids(found@) == old(self).found(*from),
    {
        let mut found: Vec<Board> = Vec::new();
        assert(grids(found@) =~= Seq::<Seq<Seq<char>>>::empty());
        search(&self.pieces, &mut self.board, &mut self.pool, from, &mut found);
        assert(grids(found@) =~= old(self).found(*from));
        found
    }

    /// The texts to show for the solutions in `found`, in their order:
    /// each is counted, and numbered with the count that it brings the
    /// solver to. The rest of the solver is left as it was.
    pub fn show(&mut self, found: &Vec<Board>) -> (frames: Vec<String>)
        requires
            all_sized(found@, old(self).board.width as int, old(self).board.height as int),
            old(self).solutions + found@.len() <= u128::MAX,
        ensures
            final(self).board == old(self).board,
            final(self).pieces == old(self).pieces,
            final(self).pool == old(self).pool,
            final(self).solutions == old(self).solutions + found@.len(),
            frames@.len() == found@.len(),
            texts(frames@) == frame_texts(
                grids(found@),
                old(self).solutions as int,
                old(self).board.width as int,
                old(self).board.height as int,
            ),
    {
        let ghost all = grids(found@);
        let ghost before = self.solutions as int;
        let height = self.board.height;
        let ghost width = self.board.width as int;
        let mut frames: Vec<String> = Vec::new();
        let n = found.len();
        let mut k: usize = 0;
        while k < n
            invariant
                n == found@.len(),
                k <= n,
                all_sized(found@, width, height as int),
                grids(found@) == all,
                before + n <= u128::MAX,
                self.solutions == before + k,
                self.board == old(self).board,
                self.pieces == old(self).pieces,
                self.pool == old(self).pool,
                frames@.len() == k,
                forall|j: int|
                    0 <= j < k ==> (#[trigger] frames@[j])@ == frame_text(
                        before + j + 1,
                        height as int,
                        picture(all[j], width, height as int),
                    ),
            decreases n - k,
        {
            assert(grids(found@)[k as int] == found@[k as int].grid());
            let drawing = found[k].render();
            self.solutions = self.solutions + 1;
            frames.push(frame(self.solutions, height, drawing.as_str()));
            k += 1;
        }
        assert(texts(frames@) =~= frame_texts(all, before, width, height as int));
        frames
    }

    /// Runs the search from `from` and gives, for each solution in the
    /// order found, the text to show. Each solution is counted, and
    /// numbered with the count that it brings the solver to. The board,
    /// the catalog and the pool are left as they were.
    pub fn solve(&mut self, from: &Point) -> (frames: Vec<String>)
        requires
            old(self).ready(*from),
            old(self).solutions + old(self).found(*from).len() <= u128::MAX,
        ensures
            final(self).ready(*from),
            final(self).same_state(old(self)),
            final(self).solutions == old(self).solutions + old(self).found(*from).len(),
            frames@.len() == old(self).found(*from).len(),
            texts(frames@) == frame_texts(
                old(self).found(*from),
                old(self).solutions as int,
                old(self).board.width as int,
                old(self).board.height as int,
            ),
    {
        let found = self.search(from);
        assert(grids(found@).len() == found@.len());
        self.show(&found)
    }

    /// Runs `solve` from the top left corner if a search can start
    /// there and the count of solutions stays within `u128`, and gives
    /// nothing otherwise.
    pub fn run(&mut self) -> (frames: Option<Vec<String>>)
        requires
            old(self).wf(),
        ensures
            final(self).same_state(old(self)),
            frames is Some <==> old(self).ready(origin()) && old(self).solutions + old(
                self,
            ).found(origin()).len() <= u128::MAX,
            match frames {
                Some(list) => final(self).solutions == old(self).solutions + old(self).found(
                    origin(),
                ).len() && list@.len() == old(self).found(origin()).len() && texts(list@)
                    == frame_texts(
                    old(self).found(origin()),
                    old(self).solutions as int,
                    old(self).board.width as int,
                    old(self).board.height as int,
                ),
                None => final(self).solutions == old(self).solutions,
            },
    {
        let start = Point { x: 0, y: 0 };
        if !self.is_ready(&start) {
            return None;
        }
        let found = self.search(&start);
        assert(grids(found@).len() == found@.len());
        if found.len() as u128 > u128::MAX - self.solutions {
            return None;
        }
        Some(self.show(&found))
    }
}

} // verus!
