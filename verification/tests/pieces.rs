use pentomino::catalog::drawn_piece;
use pentomino::piece::Piece;
use pentomino::point::Point;
use pentomino::table::{doc_line, mark_line, piece_def, BORDER, LINES, ROW_3};

#[test]
fn piece_def_reads_the_cells_off_the_drawing() {
    assert_eq!(piece_def('F'), vec![vec![2, 3], vec![3, 3], vec![1, 4], vec![2, 4], vec![2, 5]]);
    assert_eq!(piece_def('L'), vec![vec![9, 2], vec![9, 3], vec![9, 4], vec![9, 5], vec![10, 5]]);
    assert_eq!(piece_def('I'), vec![vec![6, 2], vec![6, 3], vec![6, 4], vec![6, 5], vec![6, 6]]);
    assert_eq!(piece_def('N'), vec![vec![13, 2], vec![13, 3], vec![13, 4], vec![14, 4], vec![14, 5]]);
    assert_eq!(piece_def('P'), vec![vec![17, 3], vec![18, 3], vec![17, 4], vec![18, 4], vec![17, 5]]);
    assert_eq!(piece_def('T'), vec![vec![21, 3], vec![22, 3], vec![23, 3], vec![22, 4], vec![22, 5]]);
    assert_eq!(piece_def('U'), vec![vec![1, 9], vec![3, 9], vec![1, 10], vec![2, 10], vec![3, 10]]);
    assert_eq!(piece_def('V'), vec![vec![5, 8], vec![5, 9], vec![5, 10], vec![6, 10], vec![7, 10]]);
    assert_eq!(piece_def('W'), vec![vec![9, 8], vec![9, 9], vec![10, 9], vec![10, 10], vec![11, 10]]);
    assert_eq!(piece_def('X'), vec![vec![14, 8], vec![13, 9], vec![14, 9], vec![15, 9], vec![14, 10]]);
    assert_eq!(piece_def('Y'), vec![vec![18, 8], vec![17, 9], vec![18, 9], vec![18, 10], vec![18, 11]]);
    assert_eq!(piece_def('Z'), vec![vec![21, 8], vec![22, 8], vec![22, 9], vec![22, 10], vec![23, 10]]);
}

#[test]
fn piece_def_of_a_letter_that_is_not_drawn_is_empty() {
    let none: Vec<Vec<i32>> = vec![];
    assert_eq!(piece_def('Q'), none);
    assert_eq!(piece_def('!'), none);
}

#[test]
fn the_drawing_has_an_empty_line_and_twelve_lines_of_forty_nine_characters() {
    assert_eq!(LINES, 13);
    assert_eq!(doc_line(0), "");
    for y in 1..13 {
        assert_eq!(doc_line(y).chars().count(), 49);
    }
    assert_eq!(doc_line(1), BORDER);
    assert_eq!(doc_line(7), BORDER);
    assert_eq!(doc_line(12), BORDER);
    assert_eq!(doc_line(3), ROW_3);
    assert_eq!(doc_line(3), "|   F F |   I   |  L    |  N    |  P P  | T T T |");
    assert_eq!(doc_line(11), "|       |       |       |       |    Y  |       |");
    assert_eq!(piece_def('\n').len(), 13);
    assert_eq!(piece_def('+').len(), 21);
}

#[test]
fn mark_line_halves_the_column() {
    let mut cells = vec![];
    mark_line(&mut cells, "ab", 'a', 0);
    mark_line(&mut cells, "  a a", 'a', 1);
    mark_line(&mut cells, "a", 'a', 2);
    mark_line(&mut cells, "", 'a', 3);
    assert_eq!(cells, vec![vec![0, 0], vec![1, 1], vec![2, 1], vec![0, 2]]);
}

#[test]
fn mark_line_counts_the_line_feed_that_ends_the_line() {
    let mut cells = vec![];
    mark_line(&mut cells, "ab", '\n', 0);
    mark_line(&mut cells, "", '\n', 1);
    assert_eq!(cells, vec![vec![1, 0], vec![0, 1]]);
}

#[test]
fn mark_line_appends_the_cells_of_one_line() {
    let mut cells = vec![vec![7, 7]];
    mark_line(&mut cells, "xx x", 'x', 4);
    assert_eq!(cells, vec![vec![7, 7], vec![0, 4], vec![0, 4], vec![1, 4]]);
    mark_line(&mut cells, "xx x", 'y', 5);
    assert_eq!(cells.len(), 4);
}

#[test]
fn every_piece_has_its_number_of_orientations() {
    assert_eq!(Piece::new('F', piece_def('F')).figs.len(), 8);
    assert_eq!(Piece::new('L', piece_def('L')).figs.len(), 8);
    assert_eq!(Piece::new('I', piece_def('I')).figs.len(), 2);
    assert_eq!(Piece::new('N', piece_def('N')).figs.len(), 8);
    assert_eq!(Piece::new('P', piece_def('P')).figs.len(), 8);
    assert_eq!(Piece::new('T', piece_def('T')).figs.len(), 4);
    assert_eq!(Piece::new('U', piece_def('U')).figs.len(), 4);
    assert_eq!(Piece::new('V', piece_def('V')).figs.len(), 4);
    assert_eq!(Piece::new('W', piece_def('W')).figs.len(), 4);
    assert_eq!(Piece::new('X', piece_def('X')).figs.len(), 1);
    assert_eq!(Piece::new('Y', piece_def('Y')).figs.len(), 8);
    assert_eq!(Piece::new('Z', piece_def('Z')).figs.len(), 4);
}

#[test]
fn orientations_come_in_order_of_first_appearance() {
    let i = Piece::new('I', piece_def('I'));
    assert_eq!(i.id, 'I');
    assert_eq!(i.figs, vec![vec![Point { x: 0, y: 0 }, Point { x: 0, y: 1 }, Point { x: 0, y: 2 }, Point { x: 0, y: 3 }, Point { x: 0, y: 4 }], vec![Point { x: 0, y: 0 }, Point { x: 1, y: 0 }, Point { x: 2, y: 0 }, Point { x: 3, y: 0 }, Point { x: 4, y: 0 }]]);
    let x = Piece::new('X', piece_def('X'));
    assert_eq!(x.figs, vec![vec![Point { x: 0, y: 0 }, Point { x: -1, y: 1 }, Point { x: 0, y: 1 }, Point { x: 1, y: 1 }, Point { x: 0, y: 2 }]]);
}

#[test]
fn orientations_of_the_f_piece() {
    let f = Piece::new('F', piece_def('F'));
    assert_eq!(f.figs, vec![
        vec![Point { x: 0, y: 0 }, Point { x: 1, y: 0 }, Point { x: -1, y: 1 }, Point { x: 0, y: 1 }, Point { x: 0, y: 2 }],
        vec![Point { x: 0, y: 0 }, Point { x: -1, y: 1 }, Point { x: 0, y: 1 }, Point { x: 1, y: 1 }, Point { x: 1, y: 2 }],
        vec![Point { x: 0, y: 0 }, Point { x: 0, y: 1 }, Point { x: 1, y: 1 }, Point { x: -1, y: 2 }, Point { x: 0, y: 2 }],
        vec![Point { x: 0, y: 0 }, Point { x: 0, y: 1 }, Point { x: 1, y: 1 }, Point { x: 2, y: 1 }, Point { x: 1, y: 2 }],
        vec![Point { x: 0, y: 0 }, Point { x: 1, y: 0 }, Point { x: 1, y: 1 }, Point { x: 2, y: 1 }, Point { x: 1, y: 2 }],
        vec![Point { x: 0, y: 0 }, Point { x: -1, y: 1 }, Point { x: 0, y: 1 }, Point { x: 1, y: 1 }, Point { x: -1, y: 2 }],
        vec![Point { x: 0, y: 0 }, Point { x: -1, y: 1 }, Point { x: 0, y: 1 }, Point { x: 0, y: 2 }, Point { x: 1, y: 2 }],
        vec![Point { x: 0, y: 0 }, Point { x: -2, y: 1 }, Point { x: -1, y: 1 }, Point { x: 0, y: 1 }, Point { x: -1, y: 2 }]
    ]);
}

#[test]
fn drawn_piece_builds_a_piece_from_the_drawing() {
    for id in ['F', 'L', 'I', 'N', 'P', 'T', 'U', 'V', 'W', 'X', 'Y', 'Z'] {
        let p = drawn_piece(id);
        assert_eq!(p.id, id);
        assert_eq!(p.figs, Piece::new(id, piece_def(id)).figs);
    }
}

#[test]
fn orientations_do_not_depend_on_where_or_in_what_order_the_cells_are_listed() {
    let drawn = Piece::new('F', piece_def('F')).figs;
    let moved = Piece::new('F', vec![vec![-7, 45], vec![-8, 44], vec![-6, 43], vec![-7, 43], vec![-7, 44]]);
    assert_eq!(moved.figs, drawn);
    let far = Piece::new(
        'F',
        vec![
            vec![1_000_000_001, -999_999_999],
            vec![1_000_000_001, -1_000_000_000],
            vec![1_000_000_001, -999_999_998],
            vec![1_000_000_002, -1_000_000_000],
            vec![1_000_000_000, -999_999_999],
        ],
    );
    assert_eq!(far.figs, drawn);
}

#[test]
fn no_two_pieces_share_an_orientation() {
    let ids = ['F', 'L', 'I', 'N', 'P', 'T', 'U', 'V', 'W', 'X', 'Y', 'Z'];
    for a in 0..12 {
        for b in 0..a {
            let p = Piece::new(ids[a], piece_def(ids[a]));
            let q = Piece::new(ids[b], piece_def(ids[b]));
            for f in &p.figs {
                assert!(!q.figs.contains(f));
            }
        }
    }
}

#[test]
fn no_orientation_occurs_twice() {
    for id in ['F', 'L', 'I', 'N', 'P', 'T', 'U', 'V', 'W', 'X', 'Y', 'Z'] {
        let p = Piece::new(id, piece_def(id));
        assert!(1 <= p.figs.len() && p.figs.len() <= 8);
        for a in 0..p.figs.len() {
            assert_eq!(p.figs[a].len(), 5);
            assert_eq!(p.figs[a][0], Point { x: 0, y: 0 });
            for b in 0..a {
                assert_ne!(p.figs[a], p.figs[b]);
            }
        }
    }
}

#[test]
fn a_piece_without_cells_has_one_empty_orientation() {
    let p = Piece::new('!', vec![]);
    assert_eq!(p.id, '!');
    let none: Vec<Point> = vec![];
    assert_eq!(p.figs, vec![none]);
    assert_eq!(p.to_s(), "!:(1)\n[]\n");
}

#[test]
fn entries_after_the_second_of_a_raw_cell_are_passed_over() {
    let p = Piece::new('a', vec![vec![3, 4, 99], vec![4, 4, -1]]);
    assert_eq!(p.figs.len(), 2);
    assert_eq!(p.figs[0], vec![Point { x: 0, y: 0 }, Point { x: 1, y: 0 }]);
    assert_eq!(p.figs[1], vec![Point { x: 0, y: 0 }, Point { x: 0, y: 1 }]);
}

#[test]
fn a_shape_with_a_repeated_cell_keeps_it() {
    let p = Piece::new('d', vec![vec![0, 0], vec![0, 0]]);
    assert_eq!(p.figs, vec![vec![Point { x: 0, y: 0 }, Point { x: 0, y: 0 }]]);
}

#[test]
fn to_s_lists_the_orientations() {
    assert_eq!(Piece::new('X', piece_def('X')).to_s(), "X:(1)\n[(0,0), (-1,1), (0,1), (1,1), (0,2)]\n");
    assert_eq!(Piece::new('I', piece_def('I')).to_s(), "I:(2)\n[(0,0), (0,1), (0,2), (0,3), (0,4)]\n[(0,0), (1,0), (2,0), (3,0), (4,0)]\n");
    assert_eq!(Piece::new('F', piece_def('F')).to_s(), "F:(8)\n[(0,0), (1,0), (-1,1), (0,1), (0,2)]\n[(0,0), (-1,1), (0,1), (1,1), (1,2)]\n[(0,0), (0,1), (1,1), (-1,2), (0,2)]\n[(0,0), (0,1), (1,1), (2,1), (1,2)]\n[(0,0), (1,0), (1,1), (2,1), (1,2)]\n[(0,0), (-1,1), (0,1), (1,1), (-1,2)]\n[(0,0), (-1,1), (0,1), (0,2), (1,2)]\n[(0,0), (-2,1), (-1,1), (0,1), (-1,2)]\n");
}

#[test]
fn to_s_writes_counts_of_two_digits() {
    let mut p = Piece::new('I', piece_def('I'));
    p.limit(12);
    assert_eq!(p.to_s(), "I:(12)\n[(0,0), (0,1), (0,2), (0,3), (0,4)]\n[(0,0), (1,0), (2,0), (3,0), (4,0)]\n[]\n[]\n[]\n[]\n[]\n[]\n[]\n[]\n[]\n[]\n");
}

#[test]
fn limit_cuts_the_list_or_fills_it_with_empty_shapes() {
    let mut f = Piece::new('F', piece_def('F'));
    let all = Piece::new('F', piece_def('F')).figs;
    f.limit(2);
    assert_eq!(f.id, 'F');
    assert_eq!(f.figs, vec![all[0].clone(), all[1].clone()]);
    let mut x = Piece::new('X', piece_def('X'));
    let one = Piece::new('X', piece_def('X')).figs;
    x.limit(3);
    assert_eq!(x.figs, vec![one[0].clone(), vec![], vec![]]);
    x.limit(0);
    assert!(x.figs.is_empty());
}
