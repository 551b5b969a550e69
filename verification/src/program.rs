//! The whole run: from the arguments to the texts that are shown.

use vstd::prelude::*;
use crate::board::fresh;
use crate::catalog::{
    drawn_piece, full_pool, lemma_distinct_catalog, lemma_letters, lemma_start_ready, letters,
    shape_of, the_catalog, PIECES,
};
use crate::config::{accepted, chosen_size, texts, wants_debug, Config};
use crate::piece::{header_text, raw_shape, shapes_text, Piece};
use crate::point::Point;
use crate::search::solutions;
use crate::shape::{orientations, origin};
use crate::solver::{frame_texts, Solver};
use crate::table::{doc_lines, drawn};
use crate::tiling::{lemma_no_solution_twice, lemma_solutions_tile, lemma_tiling_found, tiles};

verus! {

/// The text that shows the piece named `id` with all the orientations
/// of the shape `s`.
pub open spec fn piece_text(id: char, s: Seq<Point>) -> Seq<char> {
    header_text(id, orientations(s).len()) + shapes_text(orientations(s))
}

/// The texts that show the catalog as it is generated: the twelve
/// pieces with all of their orientations, then the entry that stands for
/// no piece.
pub open spec fn catalog_texts() -> Seq<Seq<char>> {
    Seq::new(
        PIECES as nat,
        |k: int| piece_text(letters()[k], shape_of(drawn(doc_lines(), letters()[k]))),
    ).push(piece_text('!', Seq::empty()))
}

/// The solutions for a board of `w` by `h` cells, in the order in which
/// the search from the top left corner finds them.
pub open spec fn board_solutions(w: int, h: int) -> Seq<Seq<Seq<char>>> {
    solutions(the_catalog(w == h), fresh(w, h), full_pool(), origin())
}

/// What a run shows for a board of `w` by `h` cells: the catalog first
/// if `debug` is set, then every solution, numbered from 1.
pub open spec fn shown(w: int, h: int, debug: bool) -> Seq<Seq<char>> {
    (if debug {
        catalog_texts()
    } else {
        Seq::empty()
    }) + frame_texts(board_solutions(w, h), 0, w, h)
}

/// The texts that show the catalog.
pub fn show_catalog() -> (lines: Vec<String>)
    ensures
        texts(lines@) == catalog_texts(),
{
    let mut lines: Vec<String> = Vec::new();
    let ids = "FLINPTUVWXYZ";
    proof {
        lemma_letters();
    }
    let mut i: usize = 0;
    while i < PIECES
        invariant
            i <= PIECES,
            ids@ == letters(),
            ids@.len() == PIECES,
            lines@.len() == i,
            forall|k: int|
                0 <= k < i ==> (#[trigger] lines@[k])@ == piece_text(
                    letters()[k],
                    shape_of(drawn(doc_lines(), letters()[k])),
                ),
        decreases PIECES - i,
    {
        let id = ids.get_char(i);
        proof {
            lemma_letters();
        }
        let piece = drawn_piece(id);
        assert(piece.figs@.len() == piece.shapes().len());
        lines.push(piece.to_s());
        i += 1;
    }
    let none: Vec<Vec<i32>> = Vec::new();
    assert(raw_shape(none@) =~= Seq::<Point>::empty());
    let last = Piece::new('!', none);
    assert(last.figs@.len() == last.shapes().len());
    lines.push(last.to_s());
    assert(texts(lines@) =~= catalog_texts());
    lines
}

/// Everything that a run with the given arguments shows: the catalog
/// first if `--debug` is among the arguments, then every solution for
/// the board that the arguments choose, in the order of the search.
pub fn output(args: &Vec<String>) -> (lines: Vec<String>)
    ensures
        texts(lines@) == shown(
            chosen_size(texts(args@)).0,
            chosen_size(texts(args@)).1,
            wants_debug(texts(args@)),
        ),
{
    let config = Config::from_args(args);
    let mut lines: Vec<String> = if config.debug {
        show_catalog()
    } else {
        Vec::new()
    };
    let ghost first = texts(lines@);
    assert(!config.debug ==> first =~= Seq::<Seq<char>>::empty());
    let mut solver = Solver::new(config.width, config.height);
    let start = Point { x: 0, y: 0 };
    let mut frames = solver.solve(&start);
    let ghost framed = texts(frames@);
    lines.append(&mut frames);
    assert(texts(lines@) =~= first + framed);
    lines
}

/// On an accepted board every solution that is shown lays each of the
/// twelve pieces once, in one of its orientations, on cells that were
/// empty; no cell lies under two pieces, and none is left empty. The
/// result says how the pieces lie.
pub proof fn lemma_solutions_are_tilings(w: int, h: int, n: int) -> (lay: Seq<(int, Point)>)
    requires
        accepted(w, h),
        0 <= n < board_solutions(w, h).len(),
    ensures
        tiles(the_catalog(w == h), fresh(w, h), full_pool(), board_solutions(w, h)[n], lay),
{
    lemma_start_ready(w, h);
    lemma_solutions_tile(the_catalog(w == h), fresh(w, h), w, h, full_pool(), origin(), n)
}

/// On an accepted board every way to lay the twelve pieces so that they
/// fill the empty cells is among the solutions that are shown. The
/// result is its place among them.
pub proof fn lemma_tilings_are_solutions(
    w: int,
    h: int,
    s: Seq<Seq<char>>,
    lay: Seq<(int, Point)>,
) -> (n: int)
    requires
        accepted(w, h),
        tiles(the_catalog(w == h), fresh(w, h), full_pool(), s, lay),
    ensures
        0 <= n < board_solutions(w, h).len(),
        board_solutions(w, h)[n] == s,
{
    lemma_start_ready(w, h);
    lemma_tiling_found(the_catalog(w == h), fresh(w, h), w, h, full_pool(), origin(), s, lay)
}

/// On an accepted board no solution is shown twice.
pub proof fn lemma_solutions_differ(w: int, h: int)
    requires
        accepted(w, h),
    ensures
        board_solutions(w, h).no_duplicates(),
{
    lemma_start_ready(w, h);
    lemma_distinct_catalog(w, h);
    lemma_no_solution_twice(the_catalog(w == h), fresh(w, h), w, h, full_pool(), origin());
}

} // verus!
