//! The catalog: the twelve pieces with their orientations, as the
//! drawing and the rule against mirrored solutions give them.

use vstd::prelude::*;
use vstd::relations::sorted_by;
use vstd::seq_lib::{group_to_multiset_ensures, lemma_sorted_unique, to_multiset_build};
use crate::board::{can_make, fresh, lemma_fresh_count};
use crate::config::accepted;
use crate::grid::inside;
use crate::piece::{
    lemma_distinct, lemma_orientation_shapes, lemma_orientations, limited, raw_shape, Kind, Piece,
};
use crate::point::Point;
use crate::search::{at_most, ready, usable, ways};
use crate::shape::{
    all_forms, canonical, is_canonical, lemma_row_major_total, moved_shape, orientations, origin,
    row_major, shape_in_range, COORD_MAX,
};
use crate::table::{
    doc_lines, drawn, is_piece, lemma_drawing, lemma_piece_cells, piece_cells, piece_def,
    raw_pairs,
};
use crate::tiling::{canonical_pool, distinct_pool};

verus! {

/// The number of pieces.
pub const PIECES: usize = 12;

/// The number of ways to pick twelve pieces one after the other, each in
/// one of eight orientations: `12! * 8^12`. No search with the catalog
/// finds more solutions.
pub const WAYS_MAX: u128 = 32_916_739_307_706_777_600;

/// The letters of the pieces, in catalog order.
pub open spec fn letters() -> Seq<char> {
    "FLINPTUVWXYZ"@
}

/// The shape that a list of coordinate pairs describes.
pub open spec fn shape_of(pairs: Seq<(int, int)>) -> Seq<Point> {
    Seq::new(pairs.len(), |i: int| Point { x: pairs[i].0 as i32, y: pairs[i].1 as i32 })
}

/// The orientations of entry `k` of the catalog, `1 <= k <= 12`: those
/// of the shape that its letter marks in the drawing. The first piece is
/// limited to one orientation on a square board and to two on any other,
/// so that no solution is found again turned or mirrored.
pub open spec fn catalog_shapes(k: int, square: bool) -> Seq<Seq<Point>> {
    let all = orientations(shape_of(drawn(doc_lines(), letters()[k - 1])));
    if k == 1 {
        limited(
            all,
            if square {
                1nat
            } else {
                2nat
            },
        )
    } else {
        all
    }
}

/// The catalog for a board that is square, or not: entry `0` stands for
/// no piece, the entries `1` to `12` are the pieces in the order of
/// their letters.
pub open spec fn the_catalog(square: bool) -> Seq<Kind> {
    Seq::new((PIECES + 1) as nat, |k: int| catalog_entry(k, square))
}

/// Entry `k` of the catalog.
pub open spec fn catalog_entry(k: int, square: bool) -> Kind {
    if k == 0 {
        Kind { id: '!', shapes: orientations(Seq::empty()) }
    } else {
        Kind { id: letters()[k - 1], shapes: catalog_shapes(k, square) }
    }
}

/// The pool at the start of a search: every piece, in catalog order.
pub open spec fn full_pool() -> Seq<usize> {
    Seq::new(PIECES as nat, |i: int| (i + 1) as usize)
}

/// The piece that the letter `id` names, with all the orientations of
/// its shape in the drawing.
pub fn drawn_piece(id: char) -> (p: Piece)
    requires
        is_piece(id),
    ensures
        p.id == id,
        p.shapes() == orientations(shape_of(drawn(doc_lines(), id))),
{
    let cells = piece_def(id);
    proof {
        lemma_piece_cells(id);
        assert forall|k: int| 0 <= k < cells@.len() implies (#[trigger] cells@[k])@.len() >= 2
            && -COORD_MAX <= cells@[k]@[0] <= COORD_MAX && -COORD_MAX <= cells@[k]@[1]
            <= COORD_MAX by {
            assert(raw_pairs(cells@)[k] == (cells@[k]@[0] as int, cells@[k]@[1] as int));
        }
        assert(raw_shape(cells@) =~= shape_of(raw_pairs(cells@)));
    }
    Piece::new(id, cells)
}

/// The letters of the catalog are those of the twelve pieces.
pub proof fn lemma_letters()
    ensures
        letters().len() == PIECES,
        letters()[0] == 'F',
        forall|k: int| 0 <= k < PIECES ==> is_piece(#[trigger] letters()[k]),
{
    reveal_strlit("FLINPTUVWXYZ");
}

/// The shape of a piece has five points within range, all different.
pub proof fn lemma_piece_shape(id: char)
    requires
        is_piece(id),
    ensures
        shape_of(piece_cells(id)).len() == 5,
        shape_in_range(shape_of(piece_cells(id))),
        shape_of(piece_cells(id)).no_duplicates(),
{
    lemma_piece_cells(id);
    let c = piece_cells(id);
    let s = shape_of(c);
    assert forall|i: int, j: int| 0 <= i < s.len() && 0 <= j < s.len() && i != j implies s[i]
        != s[j] by {
        assert(c[i] != c[j]);
        assert(0 <= c[i].0 <= 23 && 0 <= c[j].0 <= 23);
    }
}

/// The first piece looks different after a quarter turn, so that it has
/// at least two orientations.
pub proof fn lemma_first_piece_turns()
    ensures
        orientations(shape_of(piece_cells('F'))).len() >= 2,
{
    broadcast use {group_to_multiset_ensures, vstd::multiset::group_multiset_axioms};

    let f = shape_of(piece_cells('F'));
    let leq = row_major();
    lemma_row_major_total();
    assert(f =~= seq![
        Point { x: 2, y: 3 },
        Point { x: 3, y: 3 },
        Point { x: 1, y: 4 },
        Point { x: 2, y: 4 },
        Point { x: 2, y: 5 },
    ]);
    // As drawn, the points are in row-major order already.
    let still = moved_shape(f, 0);
    assert(still =~= f);
    still.lemma_sort_by_ensures(leq);
    assert(sorted_by(f, leq));
    lemma_sorted_unique(f, still.sort_by(leq), leq);
    assert(canonical(f, 0)[1] == Point { x: 1, y: 0 });
    // After a quarter turn they are not.
    let turned = moved_shape(f, 1);
    let a = Point { x: -3i32, y: 2 };
    let b = Point { x: -3i32, y: 3 };
    let c = Point { x: -4i32, y: 1 };
    let d = Point { x: -4i32, y: 2 };
    let e = Point { x: -5i32, y: 2 };
    let none = Seq::<Point>::empty();
    let unsorted = none.push(a).push(b).push(c).push(d).push(e);
    let sorted = none.push(c).push(e).push(d).push(a).push(b);
    assert(turned =~= unsorted);
    turned.lemma_sort_by_ensures(leq);
    assert(sorted_by(sorted, leq));
    assert(sorted.to_multiset() =~= unsorted.to_multiset()) by {
        to_multiset_build(none, a);
        to_multiset_build(none.push(a), b);
        to_multiset_build(none.push(a).push(b), c);
        to_multiset_build(none.push(a).push(b).push(c), d);
        to_multiset_build(none.push(a).push(b).push(c).push(d), e);
        to_multiset_build(none, c);
        to_multiset_build(none.push(c), e);
        to_multiset_build(none.push(c).push(e), d);
        to_multiset_build(none.push(c).push(e).push(d), a);
        to_multiset_build(none.push(c).push(e).push(d).push(a), b);
    }
    lemma_sorted_unique(sorted, turned.sort_by(leq), leq);
    assert(canonical(f, 1)[1] == Point { x: -1i32, y: 1 });
    // Both forms are among the orientations.
    let all = all_forms(f);
    lemma_distinct(all);
    let o = orientations(f);
    assert(all[0] == canonical(f, 0) && all[1] == canonical(f, 1));
    assert(all.contains(canonical(f, 0)) && all.contains(canonical(f, 1)));
    let a = choose|a: int| 0 <= a < o.len() && o[a] == canonical(f, 0);
    let b = choose|b: int| 0 <= b < o.len() && o[b] == canonical(f, 1);
    assert(a != b);
}

/// Every orientation of every entry of the catalog has five points, all
/// different, in row-major order from the origin.
pub proof fn lemma_catalog_shapes(k: int, square: bool)
    requires
        1 <= k <= PIECES,
    ensures
        forall|j: int|
            0 <= j < catalog_shapes(k, square).len() ==> (#[trigger] catalog_shapes(
                k,
                square,
            )[j]).len() == 5 && catalog_shapes(k, square)[j].no_duplicates() && is_canonical(
                catalog_shapes(k, square)[j],
            ),
{
    lemma_letters();
    let id = letters()[k - 1];
    lemma_drawing(id);
    lemma_piece_shape(id);
    lemma_orientation_shapes(shape_of(piece_cells(id)));
    if k == 1 {
        lemma_first_piece_turns();
    }
}

/// An accepted board has sides of at most 21 cells.
pub proof fn lemma_accepted_small(w: int, h: int)
    requires
        accepted(w, h),
    ensures
        3 <= w <= 21,
        3 <= h <= 21,
        can_make(w, h),
{
    assert(w <= 21 && h <= 21) by (nonlinear_arith)
        requires
            w >= 3,
            h >= 3,
            w * h <= 64,
    ;
}

/// On a new board of an accepted size, with the whole catalog in the
/// pool, the search can start at the top left corner; and every shape of
/// the catalog is canonical.
pub proof fn lemma_start_ready(w: int, h: int)
    requires
        accepted(w, h),
    ensures
        ready(the_catalog(w == h), fresh(w, h), w, h, full_pool(), origin()),
        canonical_pool(the_catalog(w == h), full_pool()),
{
    let cat = the_catalog(w == h);
    let pool = full_pool();
    lemma_accepted_small(w, h);
    lemma_fresh_count(w, h);
    lemma_letters();
    assert forall|i: int| 0 <= i < pool.len() implies (#[trigger] pool[i]) < cat.len() && usable(
        cat[pool[i] as int],
    ) by {
        lemma_catalog_shapes(i + 1, w == h);
    }
    lemma_canonical_catalog(w == h);
}

/// Every shape of the catalog is canonical.
pub proof fn lemma_canonical_catalog(square: bool)
    ensures
        canonical_pool(the_catalog(square), full_pool()),
{
    let cat = the_catalog(square);
    let pool = full_pool();
    assert forall|i: int, j: int|
        0 <= i < pool.len() && 0 <= j < cat[pool[i] as int].shapes.len() implies is_canonical(
        #[trigger] cat[pool[i] as int].shapes[j],
    ) by {
        lemma_catalog_shapes(i + 1, square);
    }
}

/// The letters of the catalog differ from one another and from the
/// labels of a new board, and no entry holds an orientation twice.
pub proof fn lemma_distinct_catalog(w: int, h: int)
    requires
        0 <= w,
        0 <= h,
    ensures
        distinct_pool(the_catalog(w == h), fresh(w, h), full_pool()),
{
    let cat = the_catalog(w == h);
    let pool = full_pool();
    reveal_strlit("FLINPTUVWXYZ");
    assert forall|i: int, j: int| 0 <= i < j < pool.len() implies cat[#[trigger] pool[i] as int].id
        != cat[#[trigger] pool[j] as int].id by {
        assert(cat[pool[i] as int].id == letters()[i]);
        assert(cat[pool[j] as int].id == letters()[j]);
    }
    assert forall|i: int, x: int, y: int|
        0 <= i < pool.len() && #[trigger] inside(fresh(w, h), x, y) implies fresh(w, h)[y][x]
        != cat[#[trigger] pool[i] as int].id by {
        assert(cat[pool[i] as int].id == letters()[i]);
    }
    assert forall|i: int| 0 <= i < pool.len() implies (#[trigger] cat[pool[i] as int])
        .shapes.no_duplicates() by {
        let k = i + 1;
        let all = orientations(shape_of(drawn(doc_lines(), letters()[k - 1])));
        lemma_orientations(shape_of(drawn(doc_lines(), letters()[k - 1])));
        if k == 1 {
            lemma_letters();
            lemma_drawing(letters()[0]);
            lemma_first_piece_turns();
            let cut = catalog_shapes(1, w == h);
            assert forall|a: int, b: int| 0 <= a < cut.len() && 0 <= b < cut.len() && a
                != b implies cut[a] != cut[b] by {
                assert(cut[a] == all[a] && cut[b] == all[b]);
            }
        }
    }
}

/// Twelve picks among pieces of at most eight orientations can be made
/// in `WAYS_MAX` ways.
pub proof fn lemma_ways_twelve()
    ensures
        ways(12, 8) == WAYS_MAX,
{
    assert(ways(0, 8) == 1);
    assert(ways(1, 8) == 1 * 8 * ways(0, 8));
    assert(ways(1, 8) == 8);
    assert(ways(2, 8) == 2 * 8 * ways(1, 8));
    assert(ways(2, 8) == 128);
    assert(ways(3, 8) == 3 * 8 * ways(2, 8));
    assert(ways(3, 8) == 3_072);
    assert(ways(4, 8) == 4 * 8 * ways(3, 8));
    assert(ways(4, 8) == 98_304);
    assert(ways(5, 8) == 5 * 8 * ways(4, 8));
    assert(ways(5, 8) == 3_932_160);
    assert(ways(6, 8) == 6 * 8 * ways(5, 8));
    assert(ways(6, 8) == 188_743_680);
    assert(ways(7, 8) == 7 * 8 * ways(6, 8));
    assert(ways(7, 8) == 10_569_646_080);
    assert(ways(8, 8) == 8 * 8 * ways(7, 8));
    assert(ways(8, 8) == 676_457_349_120);
    assert(ways(9, 8) == 9 * 8 * ways(8, 8));
    assert(ways(9, 8) == 48_704_929_136_640);
    assert(ways(10, 8) == 10 * 8 * ways(9, 8));
    assert(ways(10, 8) == 3_896_394_330_931_200);
    assert(ways(11, 8) == 11 * 8 * ways(10, 8));
    assert(ways(11, 8) == 342_882_701_121_945_600);
    assert(ways(12, 8) == 12 * 8 * ways(11, 8));
    assert(ways(12, 8) == 32_916_739_307_706_777_600);
}

/// No entry of the catalog has more than eight orientations, and twelve
/// picks among pieces of at most eight orientations can be made in
/// `WAYS_MAX` ways at most.
pub proof fn lemma_catalog_count(square: bool)
    ensures
        at_most(the_catalog(square), full_pool(), 8),
        ways(PIECES as nat, 8) == WAYS_MAX,
{
    let cat = the_catalog(square);
    let pool = full_pool();
    assert forall|i: int| 0 <= i < pool.len() implies cat[#[trigger] pool[i] as int].shapes.len()
        <= 8 by {
        lemma_orientations(shape_of(drawn(doc_lines(), letters()[i])));
    }
    lemma_ways_twelve();
}

} // verus!
