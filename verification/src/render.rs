//! Drawing a board: the borders between cells of different labels.
//!
//! Every corner point of the grid is drawn by a fragment four characters
//! wide and two lines high. Which fragment depends on where, around the
//! corner, two neighbouring cells differ.

use vstd::prelude::*;
use vstd::string::StringExecFns;
use crate::board::Board;
use crate::grid::label;

verus! {

/// The code of the corner at the top left of cell `(x, y)`: the sum of
/// `1` if the cells right of the corner differ (a line to the right),
/// `2` if the cells above it differ (a line upwards), `4` if the cells
/// left of it differ (a line to the left), and `8` if the cells below it
/// differ (a line downwards).
pub open spec fn corner(g: Seq<Seq<char>>, x: int, y: int) -> int {
    (if label(g, x, y) != label(g, x, y - 1) { 1int } else { 0int })
    + (if label(g, x, y - 1) != label(g, x - 1, y - 1) { 2int } else { 0int })
    + (if label(g, x - 1, y - 1) != label(g, x - 1, y) { 4int } else { 0int })
    + (if label(g, x - 1, y) != label(g, x, y) { 8int } else { 0int })
}

/// The upper line of the fragment for a corner code.
pub open spec fn top(code: int) -> Seq<char> {
    if code == 0 {
        "    "@
    } else if code == 5 {
        "----"@
    } else if code == 10 {
        "|   "@
    } else if code == 6 || code == 12 || code == 14 {
        "+   "@
    } else if code == 3 || code == 7 || code == 9 || code == 11 || code == 13 || code == 15 {
        "+---"@
    } else {
        ""@
    }
}

/// The lower line of the fragment for a corner code.
pub open spec fn bottom(code: int) -> Seq<char> {
    if code == 0 || code == 3 || code == 5 || code == 6 || code == 7 {
        "    "@
    } else if 9 <= code <= 15 {
        "|   "@
    } else {
        ""@
    }
}

/// Line `d` of the fragment for a corner code: `0` the upper, otherwise
/// the lower.
pub open spec fn glyph(d: int, code: int) -> Seq<char> {
    if d == 0 {
        top(code)
    } else {
        bottom(code)
    }
}

/// Line `d` of the fragments of the first `n` corners of corner row `y`.
pub open spec fn row_text(g: Seq<Seq<char>>, y: int, d: int, n: int) -> Seq<char>
    decreases n,
{
    if n <= 0 {
        Seq::empty()
    } else {
        row_text(g, y, d, n - 1) + glyph(d, corner(g, n - 1, y))
    }
}

/// Line `k` of the picture of a grid `w` cells wide: corner row `k / 2`,
/// fragment line `k % 2`, over all `w + 1` corners of the row.
pub open spec fn line_text(g: Seq<Seq<char>>, w: int, k: int) -> Seq<char> {
    row_text(g, k / 2, k % 2, w + 1)
}

/// The first `n` lines of the picture, separated by line feeds.
pub open spec fn lines_text(g: Seq<Seq<char>>, w: int, n: int) -> Seq<char>
    decreases n,
{
    if n <= 0 {
        Seq::empty()
    } else if n == 1 {
        line_text(g, w, 0)
    } else {
        lines_text(g, w, n - 1) + seq!['\n'] + line_text(g, w, n - 1)
    }
}

/// The picture of a grid of `w` by `h` cells: `2 * h + 2` lines.
pub open spec fn picture(g: Seq<Seq<char>>, w: int, h: int) -> Seq<char> {
    lines_text(g, w, 2 * h + 2)
}

/// Line `d` of the fragment for a corner code.
pub fn glyph_str(d: usize, code: usize) -> (s: &'static str)
    ensures
        s@ == glyph(d as int, code as int),
{
    if d == 0 {
        if code == 0 {
            "    "
        } else if code == 5 {
            "----"
        } else if code == 10 {
            "|   "
        } else if code == 6 || code == 12 || code == 14 {
            "+   "
        } else if code == 3 || code == 7 || code == 9 || code == 11 || code == 13 || code == 15 {
            "+---"
        } else {
            ""
        }
    } else {
        if code == 0 || code == 3 || code == 5 || code == 6 || code == 7 {
            "    "
        } else if 9 <= code && code <= 15 {
            "|   "
        } else {
            ""
        }
    }
}

impl Board {
    /// The code of the corner at the top left of cell `(x, y)`.
    pub fn corner_code(&self, x: i32, y: i32) -> (code: usize)
        requires
            self.wf(),
            x > i32::MIN,
            y > i32::MIN,
        ensures
            code == corner(self.grid(), x as int, y as int),
    {
        let here = self.at(x, y);
        let above = self.at(x, y - 1);
        let left = self.at(x - 1, y);
        let across = self.at(x - 1, y - 1);
        let mut code: usize = 0;
        if here != above {
            code += 1;
        }
        if above != across {
            code += 2;
        }
        if across != left {
            code += 4;
        }
        if left != here {
            code += 8;
        }
        code
    }

    /// The picture of the board: the borders of the board, of the
    /// blocked cells and between the pieces.
    pub fn render(&self) -> (s: String)
        requires
            self.wf(),
        ensures
            s@ == picture(self.grid(), self.width as int, self.height as int),
    {
        let mut s = String::new();
        let ghost g = self.grid();
        let ghost w = self.width as int;
        let lines: i64 = 2 * (self.height as i64) + 2;
        let mut k: i64 = 0;
        while k < lines
            invariant
                self.wf(),
                g == self.grid(),
                w == self.width,
                lines == 2 * self.height + 2,
                0 <= k <= lines,
                s@ == lines_text(g, w, k as int),
            decreases lines - k,
        {
            if k > 0 {
                s.append("\n");
                proof {
                    reveal_strlit("\n");
                    assert("\n"@ =~= seq!['\n']);
                }
            }
            let ghost start = s@;
            let y: i32 = (k / 2) as i32;
            let d: usize = (k % 2) as usize;
            let mut x: i64 = 0;
            while x <= self.width as i64
                invariant
                    self.wf(),
                    g == self.grid(),
                    w == self.width,
                    0 <= y <= self.height,
                    y == k / 2,
                    d == k % 2,
                    0 <= x <= w + 1,
                    s@ == start + row_text(g, y as int, d as int, x as int),
                decreases w + 1 - x,
            {
                let code = self.corner_code(x as i32, y);
                s.append(glyph_str(d, code));
                x += 1;
            }
            assert(s@ == start + line_text(g, w, k as int));
            k += 1;
        }
        s
    }
}

/// The number of line feeds in a text.
pub open spec fn feeds(s: Seq<char>) -> nat
    decreases s.len(),
{
    if s.len() == 0 {
        0
    } else {
        feeds(s.drop_last()) + if s.last() == '\n' { 1nat } else { 0nat }
    }
}

/// The line feeds of two texts add up when the texts are joined.
pub proof fn lemma_feeds_add(a: Seq<char>, b: Seq<char>)
    ensures
        feeds(a + b) == feeds(a) + feeds(b),
    decreases b.len(),
{
    if b.len() == 0 {
        assert(a + b =~= a);
    } else {
        lemma_feeds_add(a, b.drop_last());
        assert((a + b).drop_last() =~= a + b.drop_last());
    }
}

/// No fragment holds a line feed.
pub proof fn lemma_glyph_feeds(d: int, code: int)
    ensures
        feeds(glyph(d, code)) == 0,
{
    reveal_strlit("    ");
    reveal_strlit("----");
    reveal_strlit("|   ");
    reveal_strlit("+   ");
    reveal_strlit("+---");
    reveal_strlit("");
    reveal_with_fuel(feeds, 5);
}

/// No line of the picture holds a line feed.
pub proof fn lemma_row_feeds(g: Seq<Seq<char>>, y: int, d: int, n: int)
    ensures
        feeds(row_text(g, y, d, n)) == 0,
    decreases n,
{
    if n > 0 {
        lemma_row_feeds(g, y, d, n - 1);
        lemma_glyph_feeds(d, corner(g, n - 1, y));
        lemma_feeds_add(row_text(g, y, d, n - 1), glyph(d, corner(g, n - 1, y)));
    }
}

/// The picture of a board `h` rows high has `2 * h + 2` lines: it holds
/// `2 * h + 1` line feeds.
pub proof fn lemma_picture_lines(g: Seq<Seq<char>>, w: int, h: int)
    requires
        0 <= h,
    ensures
        feeds(picture(g, w, h)) == 2 * h + 1,
{
    lemma_lines_feeds(g, w, 2 * h + 2);
}

/// The first `n` lines of the picture hold `n - 1` line feeds.
pub proof fn lemma_lines_feeds(g: Seq<Seq<char>>, w: int, n: int)
    requires
        1 <= n,
    ensures
        feeds(lines_text(g, w, n)) == n - 1,
    decreases n,
{
    lemma_row_feeds(g, (n - 1) / 2, (n - 1) % 2, w + 1);
    if n > 1 {
        lemma_lines_feeds(g, w, n - 1);
        let before = lines_text(g, w, n - 1);
        let feed = seq!['\n'];
        assert(feeds(feed) == 1) by {
            assert(feed.drop_last() =~= Seq::<char>::empty());
            reveal_with_fuel(feeds, 2);
        }
        lemma_feeds_add(before, feed);
        lemma_feeds_add(before + feed, line_text(g, w, n - 1));
    }
}

} // verus!
