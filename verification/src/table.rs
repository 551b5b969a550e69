//! The drawing of the twelve pieces, and how cells are read off it.
//!
//! In the drawing a cell is two characters wide: the letter of a piece
//! marks a cell of that piece, in column `x / 2` of the line it is on.
//! The drawing opens with an empty line, so that its frame is line 1.

use vstd::prelude::*;

verus! {

/// The frame above, between and below the two rows of pieces.
pub const BORDER: &'static str = "+-------+-------+-------+-------+-------+-------+";

/// The first line of the upper row of pieces.
pub const ROW_2: &'static str = "|       |   I   |  L    |  N    |       |       |";

/// The second line of the upper row.
pub const ROW_3: &'static str = "|   F F |   I   |  L    |  N    |  P P  | T T T |";

/// The third line of the upper row.
pub const ROW_4: &'static str = "| F F   |   I   |  L    |  N N  |  P P  |   T   |";

/// The fourth line of the upper row.
pub const ROW_5: &'static str = "|   F   |   I   |  L L  |    N  |  P    |   T   |";

/// The last line of the upper row.
pub const ROW_6: &'static str = "|       |   I   |       |       |       |       |";

/// The first line of the lower row of pieces.
pub const ROW_8: &'static str = "|       | V     | W     |   X   |    Y  | Z Z   |";

/// The second line of the lower row.
pub const ROW_9: &'static str = "| U   U | V     | W W   | X X X |  Y Y  |   Z   |";

/// The third line of the lower row.
pub const ROW_10: &'static str = "| U U U | V V V |   W W |   X   |    Y  |   Z Z |";

/// The last line of the lower row.
pub const ROW_11: &'static str = "|       |       |       |       |    Y  |       |";

/// The number of lines of the drawing.
pub const LINES: usize = 13;

/// The lines of the drawing, from the top.
pub open spec fn doc_lines() -> Seq<Seq<char>> {
    seq![
        ""@,
        BORDER@,
        ROW_2@,
        ROW_3@,
        ROW_4@,
        ROW_5@,
        ROW_6@,
        BORDER@,
        ROW_8@,
        ROW_9@,
        ROW_10@,
        ROW_11@,
        BORDER@,
    ]
}

/// The cells that the letter `id` marks on a line of text that is line
/// `y` of a drawing, from column `x` on: for each occurrence, from left
/// to right, the pair of `x / 2` and `y`. The line feed that ends the
/// line counts as its last character.
pub open spec fn marks_from(line: Seq<char>, id: char, x: int, y: int) -> Seq<(int, int)>
    decreases line.len() - x,
{
    if 0 <= x < line.len() {
        (if line[x] == id {
            seq![(x / 2, y)]
        } else {
            Seq::empty()
        }) + marks_from(line, id, x + 1, y)
    } else if x == line.len() && id == '\n' {
        seq![(x / 2, y)]
    } else {
        Seq::empty()
    }
}

/// The cells that the letter `id` marks in a drawing, line by line from
/// the top.
pub open spec fn drawn(lines: Seq<Seq<char>>, id: char) -> Seq<(int, int)>
    decreases lines.len(),
{
    if lines.len() == 0 {
        Seq::empty()
    } else {
        drawn(lines.drop_last(), id) + marks_from(lines.last(), id, 0, lines.len() - 1)
    }
}

/// Every raw cell is a pair: `x`, then `y`.
pub open spec fn all_pairs(cells: Seq<Vec<i32>>) -> bool {
    forall|i: int| 0 <= i < cells.len() ==> (#[trigger] cells[i])@.len() == 2
}

/// The first two entries of each raw cell.
pub open spec fn raw_pairs(cells: Seq<Vec<i32>>) -> Seq<(int, int)> {
    Seq::new(cells.len(), |i: int| (cells[i]@[0] as int, cells[i]@[1] as int))
}

/// Whether the letter names one of the twelve pieces.
pub open spec fn is_piece(id: char) -> bool {
    id == 'F' || id == 'L' || id == 'I' || id == 'N' || id == 'P' || id == 'T' || id == 'U'
        || id == 'V' || id == 'W' || id == 'X' || id == 'Y' || id == 'Z'
}

/// The cells of each piece as the drawing shows them, in reading order.
pub open spec fn piece_cells(id: char) -> Seq<(int, int)> {
    if id == 'F' {
        seq![(2, 3), (3, 3), (1, 4), (2, 4), (2, 5)]
    } else if id == 'L' {
        seq![(9, 2), (9, 3), (9, 4), (9, 5), (10, 5)]
    } else if id == 'I' {
        seq![(6, 2), (6, 3), (6, 4), (6, 5), (6, 6)]
    } else if id == 'N' {
        seq![(13, 2), (13, 3), (13, 4), (14, 4), (14, 5)]
    } else if id == 'P' {
        seq![(17, 3), (18, 3), (17, 4), (18, 4), (17, 5)]
    } else if id == 'T' {
        seq![(21, 3), (22, 3), (23, 3), (22, 4), (22, 5)]
    } else if id == 'U' {
        seq![(1, 9), (3, 9), (1, 10), (2, 10), (3, 10)]
    } else if id == 'V' {
        seq![(5, 8), (5, 9), (5, 10), (6, 10), (7, 10)]
    } else if id == 'W' {
        seq![(9, 8), (9, 9), (10, 9), (10, 10), (11, 10)]
    } else if id == 'X' {
        seq![(14, 8), (13, 9), (14, 9), (15, 9), (14, 10)]
    } else if id == 'Y' {
        seq![(18, 8), (17, 9), (18, 9), (18, 10), (18, 11)]
    } else if id == 'Z' {
        seq![(21, 8), (22, 8), (22, 9), (22, 10), (23, 10)]
    } else {
        Seq::empty()
    }
}

/// How many cells of the piece lie above line `y` of the drawing.
pub open spec fn cells_above(id: char, y: int) -> int {
    let c = piece_cells(id);
    (if c[0].1 < y { 1int } else { 0int }) + (if c[1].1 < y { 1int } else { 0int })
    + (if c[2].1 < y { 1int } else { 0int }) + (if c[3].1 < y { 1int } else { 0int })
    + (if c[4].1 < y { 1int } else { 0int })
}

/// The cells of the piece on line `y` of the drawing.
pub open spec fn cells_on(id: char, y: int) -> Seq<(int, int)> {
    piece_cells(id).subrange(cells_above(id, y), cells_above(id, y + 1))
}

/// Line `y` of the drawing.
pub fn doc_line(y: usize) -> (line: &'static str)
    requires
        y < LINES,
    ensures
        line@ == doc_lines()[y as int],
{
    if y == 0 {
        ""
    } else if y == 2 {
        ROW_2
    } else if y == 3 {
        ROW_3
    } else if y == 4 {
        ROW_4
    } else if y == 5 {
        ROW_5
    } else if y == 6 {
        ROW_6
    } else if y == 8 {
        ROW_8
    } else if y == 9 {
        ROW_9
    } else if y == 10 {
        ROW_10
    } else if y == 11 {
        ROW_11
    } else {
        BORDER
    }
}

/// Appends to `cells` what the letter `id` marks on a line of text that
/// is line `y` of a drawing.
pub fn mark_line(cells: &mut Vec<Vec<i32>>, line: &str, id: char, y: i32)
    requires
        all_pairs(old(cells)@),
        line@.len() < i32::MAX,
    ensures
        all_pairs(final(cells)@),
        raw_pairs(final(cells)@) == raw_pairs(old(cells)@) + marks_from(line@, id, 0, y as int),
{
    let ghost had = raw_pairs(cells@);
    let n = line.unicode_len();
    let mut x: usize = 0;
    while x <= n
        invariant
            n == line@.len(),
            n < i32::MAX,
            x <= n + 1,
            all_pairs(cells@),
            raw_pairs(cells@) + marks_from(line@, id, x as int, y as int) == had + marks_from(
                line@,
                id,
                0,
                y as int,
            ),
        decreases n + 1 - x,
    {
        let ch = if x < n {
            line.get_char(x)
        } else {
            '\n'
        };
        let ghost before = raw_pairs(cells@);
        let ghost rest = marks_from(line@, id, x as int, y as int);
        let ghost here = if ch == id {
            seq![(x as int / 2, y as int)]
        } else {
            Seq::empty()
        };
        if ch == id {
            let mut cell: Vec<i32> = Vec::new();
            cell.push((x / 2) as i32);
            cell.push(y);
            cells.push(cell);
        }
        assert(raw_pairs(cells@) =~= before + here);
        x += 1;
        assert(rest =~= here + marks_from(line@, id, x as int, y as int));
        assert(raw_pairs(cells@) + marks_from(line@, id, x as int, y as int) =~= before + rest);
    }
    assert(marks_from(line@, id, n + 1, y as int) =~= Seq::empty());
    assert(raw_pairs(cells@) =~= had + marks_from(line@, id, 0, y as int));
}

/// The raw cells of the piece that the letter `id` names: what the
/// letter marks in the drawing of the pieces.
pub fn piece_def(id: char) -> (cells: Vec<Vec<i32>>)
    ensures
        all_pairs(cells@),
        raw_pairs(cells@) == drawn(doc_lines(), id),
        is_piece(id) ==> raw_pairs(cells@) == piece_cells(id),
{
    let mut cells: Vec<Vec<i32>> = Vec::new();
    let mut y: usize = 0;
    assert(doc_lines().take(0) =~= Seq::<Seq<char>>::empty());
    assert(raw_pairs(cells@) =~= Seq::<(int, int)>::empty());
    while y < LINES
        invariant
            y <= LINES,
            all_pairs(cells@),
            raw_pairs(cells@) == drawn(doc_lines().take(y as int), id),
        decreases LINES - y,
    {
        assert(doc_lines().take(y + 1).drop_last() =~= doc_lines().take(y as int));
        let line = doc_line(y);
        proof {
            lemma_line(id, y as int);
        }
        mark_line(&mut cells, line, id, y as i32);
        y += 1;
    }
    assert(doc_lines().take(LINES as int) =~= doc_lines());
    proof {
        if is_piece(id) {
            lemma_drawing(id);
        }
    }
    cells
}

/// Each piece has five cells in the drawing, all different, none
/// further right than column 23 or further down than line 11.
pub proof fn lemma_piece_cells(id: char)
    requires
        is_piece(id),
    ensures
        piece_cells(id).len() == 5,
        piece_cells(id).no_duplicates(),
        forall|i: int|
            0 <= i < 5 ==> 0 <= (#[trigger] piece_cells(id)[i]).0 <= 23 && 0 <= piece_cells(
                id,
            )[i].1 <= 11,
{
}

/// The frame marks no cell of a piece.
proof fn lemma_border(id: char, y: int)
    ensures
        BORDER@.len() == 49,
        is_piece(id) ==> marks_from(BORDER@, id, 0, y) == Seq::<(int, int)>::empty(),
{
    reveal_strlit("+-------+-------+-------+-------+-------+-------+");
    if is_piece(id) {
        reveal_with_fuel(marks_from, 52);
        assert(marks_from(BORDER@, id, 0, y) =~= Seq::<(int, int)>::empty());
    }
}

/// Line 2 marks the cells that `piece_cells` lists for it.
proof fn lemma_row_2(id: char)
    ensures
        ROW_2@.len() == 49,
        is_piece(id) ==> marks_from(ROW_2@, id, 0, 2) == cells_on(id, 2),
{
    reveal_strlit("|       |   I   |  L    |  N    |       |       |");
    if is_piece(id) {
        reveal_with_fuel(marks_from, 52);
        assert(marks_from(ROW_2@, id, 0, 2) =~= cells_on(id, 2));
    }
}

/// Line 3 marks the cells that `piece_cells` lists for it.
proof fn lemma_row_3(id: char)
    ensures
        ROW_3@.len() == 49,
        is_piece(id) ==> marks_from(ROW_3@, id, 0, 3) == cells_on(id, 3),
{
    reveal_strlit("|   F F |   I   |  L    |  N    |  P P  | T T T |");
    if is_piece(id) {
        reveal_with_fuel(marks_from, 52);
        assert(marks_from(ROW_3@, id, 0, 3) =~= cells_on(id, 3));
    }
}

/// Line 4 marks the cells that `piece_cells` lists for it.
proof fn lemma_row_4(id: char)
    ensures
        ROW_4@.len() == 49,
        is_piece(id) ==> marks_from(ROW_4@, id, 0, 4) == cells_on(id, 4),
{
    reveal_strlit("| F F   |   I   |  L    |  N N  |  P P  |   T   |");
    if is_piece(id) {
        reveal_with_fuel(marks_from, 52);
        assert(marks_from(ROW_4@, id, 0, 4) =~= cells_on(id, 4));
    }
}

/// Line 5 marks the cells that `piece_cells` lists for it.
proof fn lemma_row_5(id: char)
    ensures
        ROW_5@.len() == 49,
        is_piece(id) ==> marks_from(ROW_5@, id, 0, 5) == cells_on(id, 5),
{
    reveal_strlit("|   F   |   I   |  L L  |    N  |  P    |   T   |");
    if is_piece(id) {
        reveal_with_fuel(marks_from, 52);
        assert(marks_from(ROW_5@, id, 0, 5) =~= cells_on(id, 5));
    }
}

/// Line 6 marks the cells that `piece_cells` lists for it.
proof fn lemma_row_6(id: char)
    ensures
        ROW_6@.len() == 49,
        is_piece(id) ==> marks_from(ROW_6@, id, 0, 6) == cells_on(id, 6),
{
    reveal_strlit("|       |   I   |       |       |       |       |");
    if is_piece(id) {
        reveal_with_fuel(marks_from, 52);
        assert(marks_from(ROW_6@, id, 0, 6) =~= cells_on(id, 6));
    }
}

/// Line 8 marks the cells that `piece_cells` lists for it.
proof fn lemma_row_8(id: char)
    ensures
        ROW_8@.len() == 49,
        is_piece(id) ==> marks_from(ROW_8@, id, 0, 8) == cells_on(id, 8),
{
    reveal_strlit("|       | V     | W     |   X   |    Y  | Z Z   |");
    if is_piece(id) {
        reveal_with_fuel(marks_from, 52);
        assert(marks_from(ROW_8@, id, 0, 8) =~= cells_on(id, 8));
    }
}

/// Line 9 marks the cells that `piece_cells` lists for it.
proof fn lemma_row_9(id: char)
    ensures
        ROW_9@.len() == 49,
        is_piece(id) ==> marks_from(ROW_9@, id, 0, 9) == cells_on(id, 9),
{
    reveal_strlit("| U   U | V     | W W   | X X X |  Y Y  |   Z   |");
    if is_piece(id) {
        reveal_with_fuel(marks_from, 52);
        assert(marks_from(ROW_9@, id, 0, 9) =~= cells_on(id, 9));
    }
}

/// Line 10 marks the cells that `piece_cells` lists for it.
proof fn lemma_row_10(id: char)
    ensures
        ROW_10@.len() == 49,
        is_piece(id) ==> marks_from(ROW_10@, id, 0, 10) == cells_on(id, 10),
{
    reveal_strlit("| U U U | V V V |   W W |   X   |    Y  |   Z Z |");
    if is_piece(id) {
        reveal_with_fuel(marks_from, 52);
        assert(marks_from(ROW_10@, id, 0, 10) =~= cells_on(id, 10));
    }
}

/// Line 11 marks the cells that `piece_cells` lists for it.
proof fn lemma_row_11(id: char)
    ensures
        ROW_11@.len() == 49,
        is_piece(id) ==> marks_from(ROW_11@, id, 0, 11) == cells_on(id, 11),
{
    reveal_strlit("|       |       |       |       |    Y  |       |");
    if is_piece(id) {
        reveal_with_fuel(marks_from, 52);
        assert(marks_from(ROW_11@, id, 0, 11) =~= cells_on(id, 11));
    }
}

/// Each line of the drawing has at most 49 characters, and marks for a
/// piece the cells that `piece_cells` lists for the line.
pub proof fn lemma_line(id: char, y: int)
    requires
        0 <= y < LINES,
    ensures
        doc_lines()[y].len() <= 49,
        is_piece(id) ==> marks_from(doc_lines()[y], id, 0, y) == cells_on(id, y),
{
    if y == 0 {
        reveal_strlit("");
        assert(is_piece(id) ==> marks_from(doc_lines()[0], id, 0, 0) =~= cells_on(id, 0));
    } else if y == 2 {
        lemma_row_2(id);
    } else if y == 3 {
        lemma_row_3(id);
    } else if y == 4 {
        lemma_row_4(id);
    } else if y == 5 {
        lemma_row_5(id);
    } else if y == 6 {
        lemma_row_6(id);
    } else if y == 8 {
        lemma_row_8(id);
    } else if y == 9 {
        lemma_row_9(id);
    } else if y == 10 {
        lemma_row_10(id);
    } else if y == 11 {
        lemma_row_11(id);
    } else {
        lemma_border(id, y);
        assert(is_piece(id) ==> cells_on(id, y) =~= Seq::<(int, int)>::empty());
    }
}

/// The first `n` lines of the drawing mark for a piece the cells that
/// `piece_cells` lists above line `n`.
pub proof fn lemma_lines(id: char, n: int)
    requires
        is_piece(id),
        0 <= n <= LINES,
    ensures
        drawn(doc_lines().take(n), id) == piece_cells(id).take(cells_above(id, n)),
    decreases n,
{
    let lines = doc_lines();
    let cells = piece_cells(id);
    if n == 0 {
        assert(drawn(lines.take(0), id) =~= cells.take(cells_above(id, 0)));
    } else {
        lemma_lines(id, n - 1);
        lemma_line(id, n - 1);
        assert(lines.take(n).drop_last() =~= lines.take(n - 1));
        assert(cells.take(cells_above(id, n)) =~= cells.take(cells_above(id, n - 1)) + cells_on(
            id,
            n - 1,
        ));
    }
}

/// Reading the drawing gives each piece the cells that `piece_cells`
/// lists.
pub proof fn lemma_drawing(id: char)
    requires
        is_piece(id),
    ensures
        drawn(doc_lines(), id) == piece_cells(id),
{
    lemma_lines(id, LINES as int);
    assert(doc_lines().take(LINES as int) =~= doc_lines());
    assert(piece_cells(id).take(5) =~= piece_cells(id));
}

} // verus!
