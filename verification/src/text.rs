//! Building text: characters, decimal numbers, points and shapes.

use vstd::prelude::*;
use crate::point::Point;

verus! {

/// The character for a decimal digit `0 <= d < 10`.
pub open spec fn digit(d: int) -> char {
    (48 + d) as u8 as char
}

/// The decimal digits of a natural number, without leading zeros.
pub open spec fn digits(n: nat) -> Seq<char>
    decreases n,
{
    if n < 10 {
        seq![digit(n as int)]
    } else {
        digits(n / 10).push(digit((n % 10) as int))
    }
}

/// The decimal form of an integer, with a minus sign when negative.
pub open spec fn decimal(n: int) -> Seq<char> {
    if n < 0 {
        seq!['-'] + digits((-n) as nat)
    } else {
        digits(n as nat)
    }
}

/// The text of a point: `(x,y)`.
pub open spec fn point_text(p: Point) -> Seq<char> {
    seq!['('] + decimal(p.x as int) + seq![','] + decimal(p.y as int) + seq![')']
}

/// The texts of the points of a shape, separated by a comma and a space.
pub open spec fn points_text(s: Seq<Point>) -> Seq<char>
    decreases s.len(),
{
    if s.len() == 0 {
        Seq::empty()
    } else if s.len() == 1 {
        point_text(s[0])
    } else {
        points_text(s.drop_last()) + seq![',', ' '] + point_text(s.last())
    }
}

/// The text of a shape: its points in square brackets.
pub open spec fn shape_text(s: Seq<Point>) -> Seq<char> {
    seq!['['] + points_text(s) + seq![']']
}

/// Appends one character to a string.
///
/// Trusted: stands for `String::push`, which appends the given character
/// to the end of the string and leaves the rest as it was.
#[verifier::external_body]
pub(crate) fn push_char(s: &mut String, c: char)
    ensures
        final(s)@ == old(s)@.push(c),
{
    s.push(c)
}

/// Appends the decimal digits of `n`.
pub fn push_digits(s: &mut String, n: u128)
    ensures
        final(s)@ == old(s)@ + digits(n as nat),
    decreases n,
{
    if n >= 10 {
        push_digits(s, n / 10);
    }
    let d: u8 = (n % 10) as u8;
    push_char(s, (48 + d) as char);
}

/// Appends the decimal form of `n`.
pub fn push_decimal(s: &mut String, n: i64)
    ensures
        final(s)@ == old(s)@ + decimal(n as int),
{
    if n < 0 {
        push_char(s, '-');
        let m: u128 = (-(n as i128)) as u128;
        push_digits(s, m);
    } else {
        push_digits(s, n as u128);
    }
}

/// Appends the decimal form of a length.
pub fn push_decimal_len(s: &mut String, n: usize)
    ensures
        final(s)@ == old(s)@ + decimal(n as int),
{
    push_digits(s, n as u128);
}

/// Appends the text of a point.
pub fn push_point(s: &mut String, p: &Point)
    ensures
        final(s)@ == old(s)@ + point_text(*p),
{
    push_char(s, '(');
    push_decimal(s, p.x as i64);
    push_char(s, ',');
    push_decimal(s, p.y as i64);
    push_char(s, ')');
}

/// Appends the text of a shape.
pub fn push_shape(s: &mut String, fig: &Vec<Point>)
    ensures
        final(s)@ == old(s)@ + shape_text(fig@),
{
    push_char(s, '[');
    let ghost start = s@;
    let n = fig.len();
    let mut i: usize = 0;
    while i < n
        invariant
            n == fig.len(),
            i <= n,
            s@ == start + points_text(fig@.take(i as int)),
        decreases n - i,
    {
        if i > 0 {
            push_char(s, ',');
            push_char(s, ' ');
        }
        push_point(s, &fig[i]);
        proof {
            let now = fig@.take(i + 1);
            assert(now.drop_last() =~= fig@.take(i as int));
            assert(now.last() == fig@[i as int]);
        }
        i += 1;
    }
    assert(fig@.take(n as int) =~= fig@);
    push_char(s, ']');
}

} // verus!
