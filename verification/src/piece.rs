//! Pieces: an identifier and the distinct orientations of its shape.

use vstd::prelude::*;
use crate::point::Point;
use crate::shape::{
    all_forms, canonical, canonical_shape, distinct, has_shape, is_canonical, lemma_canonical,
    orientations, shape_in_range, shape_views, COORD_MAX,
};
use crate::text::{decimal, push_char, push_decimal_len, push_shape, shape_text};

verus! {

/// A piece of the puzzle.
pub struct Piece {
    /// The letter that names the piece.
    pub id: char,
    /// The distinct canonical orientations, in order of first appearance.
    pub figs: Vec<Vec<Point>>,
}

/// What a search knows of a piece: its letter and its orientations.
pub struct Kind {
    pub id: char,
    pub shapes: Seq<Seq<Point>>,
}

impl View for Piece {
    type V = Kind;

    open spec fn view(&self) -> Kind {
        Kind { id: self.id, shapes: self.shapes() }
    }
}

/// The views of a list of pieces.
pub open spec fn kinds(pieces: Seq<Piece>) -> Seq<Kind> {
    Seq::new(pieces.len(), |i: int| pieces[i]@)
}

/// Every raw cell has at least two entries, `x` then `y`, both within
/// `COORD_MAX` of zero.
pub open spec fn raw_ok(pts: Seq<Vec<i32>>) -> bool {
    forall|i: int|
        0 <= i < pts.len() ==> (#[trigger] pts[i])@.len() >= 2 && -COORD_MAX <= pts[i]@[0]
            <= COORD_MAX && -COORD_MAX <= pts[i]@[1] <= COORD_MAX
}

/// The shape that a list of raw cells describes.
pub open spec fn raw_shape(pts: Seq<Vec<i32>>) -> Seq<Point> {
    Seq::new(pts.len(), |i: int| Point { x: pts[i]@[0], y: pts[i]@[1] })
}

/// The first `n` shapes of the list, filled up to `n` with empty shapes
/// where the list is shorter.
pub open spec fn limited(figs: Seq<Seq<Point>>, n: nat) -> Seq<Seq<Point>> {
    Seq::new(n, |i: int| if i < figs.len() { figs[i] } else { Seq::empty() })
}

/// The header line of a piece's text: the letter, a colon, and the
/// number of orientations in round brackets.
pub open spec fn header_text(id: char, count: nat) -> Seq<char> {
    seq![id, ':', '('] + decimal(count as int) + seq![')', '\n']
}

/// The text of a list of shapes, one line each.
pub open spec fn shapes_text(figs: Seq<Seq<Point>>) -> Seq<char>
    decreases figs.len(),
{
    if figs.len() == 0 {
        Seq::empty()
    } else {
        shapes_text(figs.drop_last()) + shape_text(figs.last()) + seq!['\n']
    }
}

impl Piece {
    /// The orientations as mathematical sequences.
    pub open spec fn shapes(&self) -> Seq<Seq<Point>> {
        shape_views(self.figs@)
    }

    /// The text of the piece: the header line, then one line for each
    /// orientation.
    pub open spec fn text(&self) -> Seq<char> {
        header_text(self.id, self.figs@.len()) + shapes_text(self.shapes())
    }

    /// Builds the piece named `id` from the raw cells of its shape: the
    /// orientations are the distinct canonical forms of the shape under
    /// the eight symmetries of the square.
    pub fn new(id: char, pts: Vec<Vec<i32>>) -> (p: Piece)
        requires
            raw_ok(pts@),
        ensures
            p.id == id,
            p.shapes() == orientations(raw_shape(pts@)),
    {
        let mut shape: Vec<Point> = Vec::new();
        let n = pts.len();
        let mut i: usize = 0;
        while i < n
            invariant
                n == pts.len(),
                i <= n,
                raw_ok(pts@),
                shape@.len() == i,
                shape_in_range(shape@),
                forall|j: int| 0 <= j < i ==> shape@[j] == raw_shape(pts@)[j],
            decreases n - i,
        {
            let cell = &pts[i];
            shape.push(Point { x: cell[0], y: cell[1] });
            i += 1;
        }
        assert(shape@ =~= raw_shape(pts@));
        let mut figs: Vec<Vec<Point>> = Vec::new();
        let mut k: usize = 0;
        assert(all_forms(shape@).take(0) =~= Seq::<Seq<Point>>::empty());
        while k < 8
            invariant
                k <= 8,
                shape_in_range(shape@),
                shape_views(figs@) == distinct(all_forms(shape@).take(k as int)),
            decreases 8 - k,
        {
            let form = canonical_shape(&shape, k);
            let ghost seen = shape_views(figs@);
            let known = has_shape(&figs, &form);
            proof {
                let now = all_forms(shape@).take(k + 1);
                assert(now.drop_last() =~= all_forms(shape@).take(k as int));
                assert(now.last() == form@);
            }
            if !known {
                figs.push(form);
                assert(shape_views(figs@) =~= seen.push(form@));
            }
            k += 1;
        }
        assert(all_forms(shape@).take(8) =~= all_forms(shape@));
        Piece { id, figs }
    }

    /// Cuts the list of orientations down to its first `n`, or fills it
    /// up to `n` with empty shapes.
    pub fn limit(&mut self, n: usize)
        ensures
            final(self).id == old(self).id,
            final(self).shapes() == limited(old(self).shapes(), n as nat),
    {
        let ghost had = self.shapes();
        while self.figs.len() > n
            invariant
                self.id == old(self).id,
                self.figs@.len() <= had.len(),
                self.figs@.len() >= n || self.figs@.len() == had.len(),
                self.shapes() == had.take(self.figs@.len() as int),
            decreases self.figs@.len(),
        {
            self.figs.pop();
            assert(self.shapes() =~= had.take(self.figs@.len() as int));
        }
        assert(self.shapes() =~= limited(had, self.figs@.len() as nat));
        while self.figs.len() < n
            invariant
                self.id == old(self).id,
                self.figs@.len() <= n,
                self.figs@.len() >= had.len() || self.figs@.len() >= n,
                self.shapes() == limited(had, self.figs@.len() as nat),
            decreases n - self.figs@.len(),
        {
            let ghost was = self.shapes();
            self.figs.push(Vec::new());
            assert(self.shapes() =~= was.push(Seq::empty()));
            assert(self.shapes() =~= limited(had, self.figs@.len() as nat));
        }
        assert(self.shapes() =~= limited(had, n as nat));
    }

    /// The text of the piece, for diagnostics.
    pub fn to_s(&self) -> (s: String)
        ensures
            s@ == self.text(),
    {
        let mut s = String::new();
        push_char(&mut s, self.id);
        push_char(&mut s, ':');
        push_char(&mut s, '(');
        push_decimal_len(&mut s, self.figs.len());
        push_char(&mut s, ')');
        push_char(&mut s, '\n');
        assert(s@ =~= header_text(self.id, self.figs@.len()));
        let ghost head = s@;
        let n = self.figs.len();
        let mut i: usize = 0;
        while i < n
            invariant
                n == self.figs.len(),
                i <= n,
                s@ == head + shapes_text(self.shapes().take(i as int)),
            decreases n - i,
        {
            push_shape(&mut s, &self.figs[i]);
            push_char(&mut s, '\n');
            proof {
                let now = self.shapes().take(i + 1);
                assert(now.drop_last() =~= self.shapes().take(i as int));
                assert(now.last() == self.figs@[i as int]@);
            }
            i += 1;
        }
        assert(self.shapes().take(n as int) =~= self.shapes());
        s
    }
}

/// `distinct` keeps exactly the values of the sequence, each once, and
/// keeps all of them only if none was repeated.
pub proof fn lemma_distinct<A>(all: Seq<A>)
    ensures
        distinct(all).len() <= all.len(),
        all.len() > 0 ==> distinct(all).len() > 0,
        distinct(all).no_duplicates(),
        forall|x: A| distinct(all).contains(x) <==> all.contains(x),
        distinct(all).len() == all.len() <==> all.no_duplicates(),
    decreases all.len(),
{
    if all.len() > 0 {
        let earlier = all.drop_last();
        let last = all.last();
        let d = distinct(earlier);
        let r = distinct(all);
        lemma_distinct(earlier);
        assert(earlier.len() == all.len() - 1);
        assert(forall|i: int| 0 <= i < earlier.len() ==> earlier[i] == all[i]);
        assert(earlier.contains(last) <==> exists|i: int|
            0 <= i < all.len() - 1 && all[i] == last);
        assert(all.no_duplicates() <==> earlier.no_duplicates() && !earlier.contains(last)) by {
            if all.no_duplicates() {
                assert forall|i: int, j: int| 0 <= i < earlier.len() && 0 <= j < earlier.len()
                    && i != j implies earlier[i] != earlier[j] by {
                    assert(all[i] != all[j]);
                }
                if earlier.contains(last) {
                    let i = choose|i: int| 0 <= i < all.len() - 1 && all[i] == last;
                    assert(all[i] == all[all.len() - 1]);
                }
            }
            if earlier.no_duplicates() && !earlier.contains(last) {
                assert forall|i: int, j: int| 0 <= i < all.len() && 0 <= j < all.len() && i
                    != j implies all[i] != all[j] by {
                    if i < earlier.len() && j < earlier.len() {
                        assert(earlier[i] != earlier[j]);
                    } else if i < earlier.len() {
                        assert(earlier[i] == all[i]);
                    } else {
                        assert(earlier[j] == all[j]);
                    }
                }
            }
        }
        assert forall|x: A| all.contains(x) <==> earlier.contains(x) || x == last by {
            if all.contains(x) {
                let i = choose|i: int| 0 <= i < all.len() && all[i] == x;
                if i < all.len() - 1 {
                    assert(earlier[i] == x);
                }
            }
            if earlier.contains(x) {
                let i = choose|i: int| 0 <= i < earlier.len() && earlier[i] == x;
                assert(all[i] == x);
            }
            assert(all[all.len() - 1] == last);
        }
        if d.contains(last) {
            assert(r == d);
        } else {
            assert(r == d.push(last));
            assert forall|x: A| r.contains(x) <==> d.contains(x) || x == last by {
                if r.contains(x) {
                    let j = choose|j: int| 0 <= j < r.len() && r[j] == x;
                    if j < d.len() {
                        assert(d[j] == x);
                    }
                }
                if d.contains(x) {
                    let j = choose|j: int| 0 <= j < d.len() && d[j] == x;
                    assert(r[j] == x);
                }
                assert(r[d.len() as int] == last);
            }
            assert forall|i: int, j: int| 0 <= i < r.len() && 0 <= j < r.len() && i
                != j implies r[i] != r[j] by {
                if i < d.len() && j < d.len() {
                    assert(d[i] != d[j]);
                } else if i < d.len() {
                    assert(d[i] == r[i]);
                    assert(d.contains(r[i]));
                } else {
                    assert(d[j] == r[j]);
                    assert(d.contains(r[j]));
                }
            }
        }
    }
}

/// A piece has between one and eight orientations, no two of them equal;
/// they are exactly the canonical forms of its shape; and there are
/// eight of them unless two symmetries give the same canonical form.
pub proof fn lemma_orientations(s: Seq<Point>)
    ensures
        1 <= orientations(s).len() <= 8,
        orientations(s).no_duplicates(),
        forall|k: int| 0 <= k < 8 ==> orientations(s).contains(#[trigger] canonical(s, k)),
        forall|j: int|
            0 <= j < orientations(s).len() ==> exists|k: int|
                0 <= k < 8 && (#[trigger] orientations(s)[j]) == canonical(s, k),
        orientations(s).len() == 8 <==> forall|a: int, b: int|
            0 <= a < b < 8 ==> canonical(s, a) != canonical(s, b),
{
    let all = all_forms(s);
    lemma_distinct(all);
    assert forall|k: int| 0 <= k < 8 implies orientations(s).contains(
        #[trigger] canonical(s, k),
    ) by {
        assert(all[k] == canonical(s, k));
        assert(all.contains(canonical(s, k)));
    }
    assert forall|j: int| 0 <= j < orientations(s).len() implies exists|k: int|
        0 <= k < 8 && (#[trigger] orientations(s)[j]) == canonical(s, k) by {
        assert(orientations(s).contains(orientations(s)[j]));
        assert(all.contains(orientations(s)[j]));
        let k = choose|k: int| 0 <= k < all.len() && all[k] == orientations(s)[j];
        assert(orientations(s)[j] == canonical(s, k));
    }
    if all.no_duplicates() {
        assert forall|a: int, b: int| 0 <= a < b < 8 implies canonical(s, a) != canonical(
            s,
            b,
        ) by {
            assert(all[a] != all[b]);
        }
    }
    if forall|a: int, b: int| 0 <= a < b < 8 ==> canonical(s, a) != canonical(s, b) {
        assert forall|a: int, b: int| 0 <= a < b < all.len() implies all[a] != all[b] by {
            assert(canonical(s, a) != canonical(s, b));
        }
    }
}

/// Every orientation of a shape has as many points as the shape, in
/// row-major order from the origin; and none of them holds a point twice
/// if the shape does not.
pub proof fn lemma_orientation_shapes(s: Seq<Point>)
    requires
        shape_in_range(s),
    ensures
        forall|j: int|
            0 <= j < orientations(s).len() ==> (#[trigger] orientations(s)[j]).len() == s.len()
                && is_canonical(orientations(s)[j]) && (s.no_duplicates() ==> orientations(
                s,
            )[j].no_duplicates()),
{
    lemma_orientations(s);
    assert forall|j: int| 0 <= j < orientations(s).len() implies (#[trigger] orientations(
        s,
    )[j]).len() == s.len() && is_canonical(orientations(s)[j]) && (s.no_duplicates()
        ==> orientations(s)[j].no_duplicates()) by {
        let k = choose|k: int| 0 <= k < 8 && orientations(s)[j] == canonical(s, k);
        lemma_canonical(s, k);
    }
}

} // verus!
