//! Shapes and their canonical orientations.
//!
//! A shape is a sequence of points. Its canonical form under one of the
//! eight symmetries of the square is obtained by transforming every
//! point, sorting row-major, and shifting so that the first point
//! becomes the origin. Two placements of a piece look alike exactly when
//! their canonical forms are equal.

use vstd::prelude::*;
use vstd::relations::{sorted_by, total_ordering};
use vstd::seq_lib::*;
use crate::point::Point;

verus! {

/// Largest coordinate magnitude for which every transform and every
/// difference of two coordinates still fits in an `i32`.
pub const COORD_MAX: i32 = 0x3fff_ffff;

/// Both coordinates lie within `COORD_MAX` of zero.
pub open spec fn in_range(p: Point) -> bool {
    -COORD_MAX <= p.x <= COORD_MAX && -COORD_MAX <= p.y <= COORD_MAX
}

/// Every point of the shape is `in_range`.
pub open spec fn shape_in_range(s: Seq<Point>) -> bool {
    forall|i: int| 0 <= i < s.len() ==> in_range(#[trigger] s[i])
}

/// The non-strict row-major order, as a relation.
pub open spec fn row_major() -> spec_fn(Point, Point) -> bool {
    |a: Point, b: Point| !b.before(a)
}

/// The point after `n` quarter turns, each mapping `(x, y)` to `(-y, x)`.
pub open spec fn turned(p: Point, n: int) -> Point {
    if n % 4 == 0 {
        p
    } else if n % 4 == 1 {
        Point { x: (-p.y) as i32, y: p.x }
    } else if n % 4 == 2 {
        Point { x: (-p.x) as i32, y: (-p.y) as i32 }
    } else {
        Point { x: p.y, y: (-p.x) as i32 }
    }
}

/// The mirror image of a point: `x` is negated.
pub open spec fn mirrored(p: Point) -> Point {
    Point { x: (-p.x) as i32, y: p.y }
}

/// The image of a point under symmetry `k` of the square, `0 <= k < 8`:
/// `k % 4` quarter turns, followed by a mirror when `k >= 4`.
pub open spec fn moved(p: Point, k: int) -> Point {
    if k >= 4 {
        mirrored(turned(p, k))
    } else {
        turned(p, k)
    }
}

/// The shape with every point moved by symmetry `k`, order kept.
pub open spec fn moved_shape(s: Seq<Point>, k: int) -> Seq<Point> {
    Seq::new(s.len(), |i: int| moved(s[i], k))
}

/// The shape shifted so that its first point is the origin.
pub open spec fn anchored(s: Seq<Point>) -> Seq<Point> {
    Seq::new(s.len(), |i: int| Point { x: (s[i].x - s[0].x) as i32, y: (s[i].y - s[0].y) as i32 })
}

/// The canonical form of shape `s` under symmetry `k`.
pub open spec fn canonical(s: Seq<Point>, k: int) -> Seq<Point> {
    anchored(moved_shape(s, k).sort_by(row_major()))
}

/// The sequence without repetitions: each value is kept where it first
/// occurs.
pub open spec fn distinct<A>(all: Seq<A>) -> Seq<A>
    decreases all.len(),
{
    if all.len() == 0 {
        Seq::empty()
    } else {
        let earlier = distinct(all.drop_last());
        if earlier.contains(all.last()) {
            earlier
        } else {
            earlier.push(all.last())
        }
    }
}

/// The eight canonical forms of a shape, in the order of the symmetries.
pub open spec fn all_forms(s: Seq<Point>) -> Seq<Seq<Point>> {
    Seq::new(8, |k: int| canonical(s, k))
}

/// The distinct canonical forms of a shape, in order of first appearance.
pub open spec fn orientations(s: Seq<Point>) -> Seq<Seq<Point>> {
    distinct(all_forms(s))
}

/// The views of a list of shapes.
pub open spec fn shape_views(figs: Seq<Vec<Point>>) -> Seq<Seq<Point>> {
    Seq::new(figs.len(), |i: int| figs[i]@)
}

/// Row-major order is a total order on points.
pub proof fn lemma_row_major_total()
    ensures
        total_ordering(row_major()),
{
    let r = row_major();
    assert forall|a: Point, b: Point| #[trigger] r(a, b) && #[trigger] r(b, a) implies a == b by {
        assert(a.x == b.x && a.y == b.y);
    }
    assert(vstd::relations::reflexive(r));
    assert(vstd::relations::antisymmetric(r));
    assert(vstd::relations::transitive(r));
    assert(vstd::relations::strongly_connected(r));
}

/// Moves one point by symmetry `k`.
pub fn move_point(p: Point, k: usize) -> (r: Point)
    requires
        in_range(p),
        k < 8,
    ensures
        r == moved(p, k as int),
        in_range(r),
{
    let t = k % 4;
    let q = if t == 0 {
        p
    } else if t == 1 {
        Point { x: -p.y, y: p.x }
    } else if t == 2 {
        Point { x: -p.x, y: -p.y }
    } else {
        Point { x: p.y, y: -p.x }
    };
    if k >= 4 {
        Point { x: -q.x, y: q.y }
    } else {
        q
    }
}

/// Moves every point of a shape by symmetry `k`.
pub fn move_shape(s: &Vec<Point>, k: usize) -> (r: Vec<Point>)
    requires
        shape_in_range(s@),
        k < 8,
    ensures
        r@ == moved_shape(s@, k as int),
        shape_in_range(r@),
{
    let mut r: Vec<Point> = Vec::new();
    let n = s.len();
    let mut i: usize = 0;
    while i < n
        invariant
            n == s.len(),
            i <= n,
            k < 8,
            shape_in_range(s@),
            shape_in_range(r@),
            r@.len() == i,
            forall|j: int| 0 <= j < i ==> r@[j] == moved(s@[j], k as int),
        decreases n - i,
    {
        let q = move_point(s[i], k);
        r.push(q);
        i += 1;
    }
    assert(r@ =~= moved_shape(s@, k as int));
    r
}

/// Sorts a shape row-major.
pub fn sort_shape(s: &Vec<Point>) -> (r: Vec<Point>)
    ensures
        r@ == s@.sort_by(row_major()),
        sorted_by(r@, row_major()),
        r@.to_multiset() == s@.to_multiset(),
        r@.len() == s@.len(),
{
    let mut r: Vec<Point> = Vec::new();
    let n = s.len();
    let mut i: usize = 0;
    proof {
        assert(s@.take(0) =~= Seq::<Point>::empty());
    }
    while i < n
        invariant
            n == s.len(),
            i <= n,
            r@.len() == i,
            sorted_by(r@, row_major()),
            r@.to_multiset() == s@.take(i as int).to_multiset(),
        decreases n - i,
    {
        let p = s[i];
        let m = r.len();
        let mut at: usize = 0;
        while at < m && !p.is_before(&r[at])
            invariant
                m == r@.len(),
                at <= m,
                forall|a: int| 0 <= a < at ==> !p.before(r@[a]),
            decreases m - at,
        {
            at += 1;
        }
        let ghost before = r@;
        r.insert(at, p);
        proof {
            let leq = row_major();
            assert forall|a: int, b: int| 0 <= a < b < r@.len() implies #[trigger] leq(
                r@[a],
                r@[b],
            ) by {
                if b < at {
                    assert(leq(before[a], before[b]));
                } else if b == at {
                } else if a < at {
                    assert(leq(before[a], before[b - 1]));
                } else if a == at {
                    if b - 1 > at {
                        assert(leq(before[at as int], before[b - 1]));
                    }
                } else {
                    assert(leq(before[a - 1], before[b - 1]));
                }
            }
            to_multiset_insert(before, at as int, p);
            assert(s@.take(i + 1) =~= s@.take(i as int).push(p));
            to_multiset_build(s@.take(i as int), p);
        }
        i += 1;
    }
    proof {
        assert(s@.take(n as int) =~= s@);
        lemma_row_major_total();
        s@.lemma_sort_by_ensures(row_major());
        lemma_sorted_unique(r@, s@.sort_by(row_major()), row_major());
        to_multiset_len(r@);
        to_multiset_len(s@);
    }
    r
}

/// Shifts a shape so that its first point is the origin.
pub fn anchor_shape(s: &Vec<Point>) -> (r: Vec<Point>)
    requires
        shape_in_range(s@),
    ensures
        r@ == anchored(s@),
{
    let mut r: Vec<Point> = Vec::new();
    let n = s.len();
    let mut i: usize = 0;
    while i < n
        invariant
            n == s.len(),
            i <= n,
            shape_in_range(s@),
            r@.len() == i,
            forall|j: int| 0 <= j < i ==> r@[j] == anchored(s@)[j],
        decreases n - i,
    {
        let first = s[0];
        let p = s[i];
        r.push(Point { x: p.x - first.x, y: p.y - first.y });
        i += 1;
    }
    assert(r@ =~= anchored(s@));
    r
}

/// The canonical form of a shape under symmetry `k`.
pub fn canonical_shape(s: &Vec<Point>, k: usize) -> (r: Vec<Point>)
    requires
        shape_in_range(s@),
        k < 8,
    ensures
        r@ == canonical(s@, k as int),
{
    let m = move_shape(s, k);
    let sorted = sort_shape(&m);
    proof {
        assert forall|i: int| 0 <= i < sorted@.len() implies in_range(#[trigger] sorted@[i]) by {
            to_multiset_contains(sorted@, sorted@[i]);
            to_multiset_contains(m@, sorted@[i]);
            assert(sorted@.contains(sorted@[i]));
        }
    }
    anchor_shape(&sorted)
}

/// Structural equality of two shapes.
pub fn same_shape(a: &Vec<Point>, b: &Vec<Point>) -> (r: bool)
    ensures
        r == (a@ == b@),
{
    if a.len() != b.len() {
        return false;
    }
    let n = a.len();
    let mut i: usize = 0;
    while i < n
        invariant
            n == a.len(),
            n == b.len(),
            i <= n,
            forall|j: int| 0 <= j < i ==> a@[j] == b@[j],
        decreases n - i,
    {
        if a[i].x != b[i].x || a[i].y != b[i].y {
            return false;
        }
        i += 1;
    }
    assert(a@ =~= b@);
    true
}

/// Whether no point occurs twice in the shape.
pub fn distinct_points(fig: &Vec<Point>) -> (r: bool)
    ensures
        r == fig@.no_duplicates(),
{
    let n = fig.len();
    let mut a: usize = 0;
    while a < n
        invariant
            n == fig.len(),
            a <= n,
            forall|i: int, j: int| 0 <= i < a && i < j < n ==> fig@[i] != fig@[j],
        decreases n - a,
    {
        let mut b: usize = a + 1;
        while b < n
            invariant
                n == fig.len(),
                a < b <= n,
                forall|j: int| a < j < b ==> fig@[a as int] != fig@[j],
            decreases n - b,
        {
            if fig[a].x == fig[b].x && fig[a].y == fig[b].y {
                assert(fig@[a as int] == fig@[b as int]);
                return false;
            }
            b += 1;
        }
        a += 1;
    }
    assert forall|i: int, j: int| 0 <= i < n && 0 <= j < n && i != j implies fig@[i] != fig@[j] by {
        if i < j {
        } else {
            assert(fig@[j] != fig@[i]);
        }
    }
    true
}

/// Whether a list of shapes holds one equal to `f`.
pub fn has_shape(figs: &Vec<Vec<Point>>, f: &Vec<Point>) -> (r: bool)
    ensures
        r == shape_views(figs@).contains(f@),
{
    let n = figs.len();
    let mut i: usize = 0;
    while i < n
        invariant
            n == figs.len(),
            i <= n,
            forall|j: int| 0 <= j < i ==> figs@[j]@ != f@,
        decreases n - i,
    {
        if same_shape(&figs[i], f) {
            assert(shape_views(figs@)[i as int] == f@);
            return true;
        }
        i += 1;
    }
    false
}

/// The point that every canonical form starts with.
pub open spec fn origin() -> Point {
    Point { x: 0, y: 0 }
}

/// The shape is laid out as a canonical form is: its points are in
/// row-major order and the first of them is the origin.
pub open spec fn is_canonical(s: Seq<Point>) -> bool {
    sorted_by(s, row_major()) && (s.len() > 0 ==> s[0] == origin())
}

/// A symmetry of the square moves two different points to two different
/// points.
pub proof fn lemma_moved_apart(p: Point, q: Point, k: int)
    requires
        in_range(p),
        in_range(q),
        0 <= k < 8,
        p != q,
    ensures
        moved(p, k) != moved(q, k),
        in_range(moved(p, k)),
{
}

/// The canonical form of a shape has as many points as the shape, is in
/// row-major order and starts at the origin; and if no point occurs
/// twice in the shape, none does in the canonical form.
pub proof fn lemma_canonical(s: Seq<Point>, k: int)
    requires
        shape_in_range(s),
        0 <= k < 8,
    ensures
        canonical(s, k).len() == s.len(),
        is_canonical(canonical(s, k)),
        s.no_duplicates() ==> canonical(s, k).no_duplicates(),
{
    let m = moved_shape(s, k);
    let leq = row_major();
    let t = m.sort_by(leq);
    let c = canonical(s, k);
    lemma_row_major_total();
    m.lemma_sort_by_ensures(leq);
    to_multiset_len(m);
    to_multiset_len(t);
    assert forall|i: int| 0 <= i < t.len() implies in_range(#[trigger] t[i]) by {
        to_multiset_contains(t, t[i]);
        to_multiset_contains(m, t[i]);
        assert(t.contains(t[i]));
        let j = choose|j: int| 0 <= j < m.len() && m[j] == t[i];
        assert(in_range(s[j]));
    }
    assert forall|i: int, j: int| 0 <= i < j < c.len() implies #[trigger] leq(c[i], c[j]) by {
        assert(leq(t[i], t[j]));
        assert(in_range(t[i]) && in_range(t[j]) && in_range(t[0]));
    }
    if s.no_duplicates() {
        assert forall|i: int, j: int| 0 <= i < m.len() && 0 <= j < m.len() && i != j implies m[i]
            != m[j] by {
            assert(in_range(s[i]) && in_range(s[j]));
            lemma_moved_apart(s[i], s[j], k);
        }
        m.lemma_multiset_has_no_duplicates();
        t.lemma_multiset_has_no_duplicates_conv();
        assert forall|i: int, j: int| 0 <= i < c.len() && 0 <= j < c.len() && i != j implies c[i]
            != c[j] by {
            assert(t[i] != t[j]);
            assert(in_range(t[i]) && in_range(t[j]) && in_range(t[0]));
        }
    }
    if s.len() > 0 {
        assert(in_range(t[0]));
    }
}

/// What symmetry `k` of the square does to the difference of two
/// points: it is turned and mirrored as a point is.
pub open spec fn moved_by(dx: int, dy: int, k: int) -> (int, int) {
    let t = if k % 4 == 0 {
        (dx, dy)
    } else if k % 4 == 1 {
        (-dy, dx)
    } else if k % 4 == 2 {
        (-dx, -dy)
    } else {
        (dy, -dx)
    };
    if k >= 4 {
        (-t.0, t.1)
    } else {
        t
    }
}

/// The shape holds the point `q` shifted by `(dx, dy)`.
pub open spec fn has_shifted(t: Seq<Point>, q: Point, dx: int, dy: int) -> bool {
    exists|j: int| 0 <= j < t.len() && (#[trigger] t[j]).x == q.x + dx && t[j].y == q.y + dy
}

/// The shape `t` holds the points of the shape `s`, each shifted by
/// `(dx, dy)`, and no others, in any order.
pub open spec fn shifted(s: Seq<Point>, t: Seq<Point>, dx: int, dy: int) -> bool {
    &&& forall|i: int| 0 <= i < s.len() ==> has_shifted(t, #[trigger] s[i], dx, dy)
    &&& forall|j: int| 0 <= j < t.len() ==> has_shifted(s, #[trigger] t[j], -dx, -dy)
}

/// A symmetry of the square moves the difference of two points as it
/// moves the points.
pub proof fn lemma_moved_difference(p: Point, q: Point, k: int)
    requires
        in_range(p),
        in_range(q),
        0 <= k < 8,
    ensures
        moved(q, k).x == moved(p, k).x + moved_by(q.x - p.x, q.y - p.y, k).0,
        moved(q, k).y == moved(p, k).y + moved_by(q.x - p.x, q.y - p.y, k).1,
{
}

/// Two sequences without repetitions that hold the same values hold
/// each of them as often as the other.
pub proof fn lemma_same_members<A>(a: Seq<A>, b: Seq<A>)
    requires
        a.no_duplicates(),
        b.no_duplicates(),
        forall|x: A| a.contains(x) <==> b.contains(x),
    ensures
        a.to_multiset() == b.to_multiset(),
{
    broadcast use {group_to_multiset_ensures, vstd::multiset::group_multiset_axioms};

    a.lemma_multiset_has_no_duplicates();
    b.lemma_multiset_has_no_duplicates();
    assert forall|x: A| a.to_multiset().count(x) == b.to_multiset().count(x) by {
        assert(a.contains(x) <==> b.contains(x));
    }
    assert(a.to_multiset() =~= b.to_multiset());
}

/// Moving and sorting a shape of distinct points within range gives the
/// same number of points, in order, within range and distinct; and each
/// is the image of a point of the shape.
pub proof fn lemma_moved_sorted(s: Seq<Point>, k: int)
    requires
        shape_in_range(s),
        s.no_duplicates(),
        0 <= k < 8,
    ensures
        moved_shape(s, k).sort_by(row_major()).len() == s.len(),
        sorted_by(moved_shape(s, k).sort_by(row_major()), row_major()),
        shape_in_range(moved_shape(s, k).sort_by(row_major())),
        moved_shape(s, k).sort_by(row_major()).no_duplicates(),
        forall|p: Point|
            moved_shape(s, k).sort_by(row_major()).contains(p) <==> exists|i: int|
                0 <= i < s.len() && moved(#[trigger] s[i], k) == p,
{
    let m = moved_shape(s, k);
    let t = m.sort_by(row_major());
    lemma_row_major_total();
    m.lemma_sort_by_ensures(row_major());
    to_multiset_len(m);
    to_multiset_len(t);
    assert forall|p: Point| t.contains(p) <==> exists|i: int|
        0 <= i < s.len() && moved(#[trigger] s[i], k) == p by {
        to_multiset_contains(t, p);
        to_multiset_contains(m, p);
        if m.contains(p) {
            let i = choose|i: int| 0 <= i < m.len() && m[i] == p;
            assert(moved(s[i], k) == p);
        }
        if exists|i: int| 0 <= i < s.len() && moved(#[trigger] s[i], k) == p {
            let i = choose|i: int| 0 <= i < s.len() && moved(#[trigger] s[i], k) == p;
            assert(m[i] == p);
        }
    }
    assert forall|i: int| 0 <= i < t.len() implies in_range(#[trigger] t[i]) by {
        assert(t.contains(t[i]));
        let j = choose|j: int| 0 <= j < s.len() && moved(#[trigger] s[j], k) == t[i];
        assert(in_range(s[j]));
    }
    assert forall|i: int, j: int| 0 <= i < m.len() && 0 <= j < m.len() && i != j implies m[i]
        != m[j] by {
        assert(in_range(s[i]) && in_range(s[j]));
        lemma_moved_apart(s[i], s[j], k);
    }
    m.lemma_multiset_has_no_duplicates();
    t.lemma_multiset_has_no_duplicates_conv();
}

/// The point `p` shifted by `(dx, dy)`.
pub open spec fn plus(p: Point, dx: int, dy: int) -> Point {
    Point { x: (p.x + dx) as i32, y: (p.y + dy) as i32 }
}

/// A symmetry of the square moves a shifted point to the moved point,
/// shifted by the moved difference.
proof fn lemma_moved_plus(p: Point, q: Point, dx: int, dy: int, k: int)
    requires
        in_range(p),
        in_range(q),
        q.x == p.x + dx,
        q.y == p.y + dy,
        0 <= k < 8,
    ensures
        moved(q, k) == plus(moved(p, k), moved_by(dx, dy, k).0, moved_by(dx, dy, k).1),
        moved(q, k).x == moved(p, k).x + moved_by(dx, dy, k).0,
        moved(q, k).y == moved(p, k).y + moved_by(dx, dy, k).1,
{
    lemma_moved_difference(p, q, k);
    assert(q.x - p.x == dx && q.y - p.y == dy);
}

/// Sorted, the images of the points of `t` are those of the points of
/// `s`, each shifted by the moved difference.
proof fn lemma_sorted_shifted(s: Seq<Point>, t: Seq<Point>, dx: int, dy: int, k: int)
    requires
        shape_in_range(s),
        shape_in_range(t),
        s.no_duplicates(),
        t.no_duplicates(),
        shifted(s, t, dx, dy),
        0 <= k < 8,
    ensures
        moved_shape(t, k).sort_by(row_major()).len() == moved_shape(s, k).sort_by(
            row_major(),
        ).len(),
        forall|i: int|
            0 <= i < moved_shape(s, k).sort_by(row_major()).len() ==> (#[trigger] moved_shape(
                t,
                k,
            ).sort_by(row_major())[i]).x == moved_shape(s, k).sort_by(row_major())[i].x
                + moved_by(dx, dy, k).0 && moved_shape(t, k).sort_by(row_major())[i].y
                == moved_shape(s, k).sort_by(row_major())[i].y + moved_by(dx, dy, k).1,
{
    let leq = row_major();
    let mx = moved_by(dx, dy, k).0;
    let my = moved_by(dx, dy, k).1;
    let sx = moved_shape(s, k).sort_by(leq);
    let sy = moved_shape(t, k).sort_by(leq);
    lemma_moved_sorted(s, k);
    lemma_moved_sorted(t, k);
    lemma_row_major_total();
    let c = Seq::new(sx.len(), |i: int| plus(sx[i], mx, my));
    assert forall|i: int| 0 <= i < c.len() implies sy.contains(#[trigger] c[i]) && c[i].x == sx[i].x
        + mx && c[i].y == sx[i].y + my by {
        assert(sx.contains(sx[i]));
        let a = choose|a: int| 0 <= a < s.len() && moved(#[trigger] s[a], k) == sx[i];
        assert(has_shifted(t, s[a], dx, dy));
        let b = choose|b: int|
            0 <= b < t.len() && (#[trigger] t[b]).x == s[a].x + dx && t[b].y == s[a].y + dy;
        assert(in_range(s[a]) && in_range(t[b]));
        lemma_moved_plus(s[a], t[b], dx, dy, k);
        assert(sy.contains(moved(t[b], k)));
    }
    assert forall|p: Point| sy.contains(p) implies c.contains(p) by {
        let b = choose|b: int| 0 <= b < t.len() && moved(#[trigger] t[b], k) == p;
        assert(has_shifted(s, t[b], -dx, -dy));
        let a = choose|a: int|
            0 <= a < s.len() && (#[trigger] s[a]).x == t[b].x + -dx && s[a].y == t[b].y + -dy;
        assert(in_range(s[a]) && in_range(t[b]));
        lemma_moved_plus(s[a], t[b], dx, dy, k);
        assert(sx.contains(moved(s[a], k)));
        let i = choose|i: int| 0 <= i < sx.len() && sx[i] == moved(s[a], k);
        assert(c[i] == p);
    }
    assert forall|i: int, j: int| 0 <= i < j < c.len() implies #[trigger] leq(c[i], c[j]) by {
        assert(leq(sx[i], sx[j]));
        assert(sy.contains(c[i]) && sy.contains(c[j]));
    }
    assert forall|i: int, j: int| 0 <= i < c.len() && 0 <= j < c.len() && i != j implies c[i]
        != c[j] by {
        assert(sx[i] != sx[j]);
        assert(sy.contains(c[i]) && sy.contains(c[j]));
    }
    assert forall|p: Point| c.contains(p) <==> sy.contains(p) by {
        if c.contains(p) {
            let i = choose|i: int| 0 <= i < c.len() && c[i] == p;
            assert(sy.contains(c[i]));
        }
    }
    lemma_same_members(c, sy);
    lemma_sorted_unique(c, sy, leq);
    assert forall|i: int| 0 <= i < sx.len() implies (#[trigger] sy[i]).x == sx[i].x + mx
        && sy[i].y == sx[i].y + my by {
        assert(sy.contains(c[i]));
    }
}

/// The canonical form of a shape of distinct points does not depend on
/// where the shape lies, nor on the order of its points.
pub proof fn lemma_canonical_shifted(s: Seq<Point>, t: Seq<Point>, dx: int, dy: int, k: int)
    requires
        shape_in_range(s),
        shape_in_range(t),
        s.no_duplicates(),
        t.no_duplicates(),
        shifted(s, t, dx, dy),
        0 <= k < 8,
    ensures
        canonical(t, k) == canonical(s, k),
{
    let sx = moved_shape(s, k).sort_by(row_major());
    let sy = moved_shape(t, k).sort_by(row_major());
    lemma_sorted_shifted(s, t, dx, dy, k);
    assert forall|i: int| 0 <= i < sx.len() implies anchored(sy)[i] == anchored(sx)[i] by {
        assert(sy[i].x - sy[0].x == sx[i].x - sx[0].x);
        assert(sy[i].y - sy[0].y == sx[i].y - sx[0].y);
    }
    assert(anchored(sy) =~= anchored(sx));
}

/// The orientations of a shape of distinct points do not depend on
/// where the shape lies, nor on the order of its points.
pub proof fn lemma_orientations_shifted(s: Seq<Point>, t: Seq<Point>, dx: int, dy: int)
    requires
        shape_in_range(s),
        shape_in_range(t),
        s.no_duplicates(),
        t.no_duplicates(),
        shifted(s, t, dx, dy),
    ensures
        orientations(t) == orientations(s),
{
    assert forall|k: int| 0 <= k < 8 implies all_forms(t)[k] == all_forms(s)[k] by {
        lemma_canonical_shifted(s, t, dx, dy, k);
    }
    assert(all_forms(t) =~= all_forms(s));
}

} // verus!
