use pentomino::board::Board;
use pentomino::point::Point;
use pentomino::render::glyph_str;

fn rows(b: &Board) -> Vec<String> {
    b.cells.iter().map(|r| r.iter().collect()).collect()
}

#[test]
fn a_new_board_of_area_sixty_is_empty() {
    let b = Board::new(6, 10);
    assert_eq!(b.width, 6);
    assert_eq!(b.height, 10);
    assert_eq!(rows(&b), vec!["      "; 10]);
    assert_eq!(b.count_free(), 60);
}

#[test]
fn a_new_board_of_area_sixty_four_has_the_centre_blocked() {
    let b = Board::new(8, 8);
    assert_eq!(
        rows(&b),
        vec!["        ", "        ", "        ", "   @@   ", "   @@   ", "        ", "        ", "        "]
    );
    assert_eq!(b.at(3, 3), '@');
    assert_eq!(b.at(4, 3), '@');
    assert_eq!(b.at(3, 4), '@');
    assert_eq!(b.at(4, 4), '@');
    assert_eq!(b.at(2, 3), ' ');
    assert_eq!(b.at(5, 4), ' ');
    assert_eq!(b.count_free(), 60);
    let wide = Board::new(16, 4);
    assert_eq!(rows(&wide), vec![" ".repeat(16), "       @@       ".to_string(), "       @@       ".to_string(), " ".repeat(16)]);
    let tall = Board::new(2, 32);
    assert_eq!(tall.at(0, 15), '@');
    assert_eq!(tall.at(1, 16), '@');
    assert_eq!(tall.count_free(), 60);
}

#[test]
fn boards_of_other_areas_are_empty() {
    let b = Board::new(4, 4);
    assert_eq!(rows(&b), vec!["    "; 4]);
    let none = Board::new(0, 0);
    assert!(none.cells.is_empty());
    assert_eq!(none.count_free(), 0);
    let flat = Board::new(5, 0);
    assert!(flat.cells.is_empty());
    let thin = Board::new(0, 3);
    assert_eq!(rows(&thin), vec![""; 3]);
}

#[test]
fn at_reads_outside_the_board_as_a_question_mark() {
    let b = Board::new(3, 2);
    assert_eq!(b.at(0, 0), ' ');
    assert_eq!(b.at(2, 1), ' ');
    assert_eq!(b.at(-1, 0), '?');
    assert_eq!(b.at(0, -1), '?');
    assert_eq!(b.at(3, 0), '?');
    assert_eq!(b.at(0, 2), '?');
    assert_eq!(b.at(i32::MAX, i32::MIN), '?');
}

#[test]
fn check_is_false_when_a_cell_falls_outside() {
    let b = Board::new(3, 2);
    let bar = vec![Point { x: 0, y: 0 }, Point { x: 1, y: 0 }, Point { x: 2, y: 0 }];
    assert!(b.check(&Point { x: 0, y: 0 }, &bar));
    assert!(b.check(&Point { x: 0, y: 1 }, &bar));
    assert!(!b.check(&Point { x: 1, y: 0 }, &bar));
    assert!(!b.check(&Point { x: -1, y: 0 }, &bar));
    assert!(!b.check(&Point { x: 0, y: 2 }, &bar));
    assert!(!b.check(&Point { x: 0, y: -1 }, &bar));
    assert!(!b.check(&Point { x: i32::MAX, y: i32::MAX }, &bar));
    assert!(!b.check(&Point { x: i32::MIN, y: 0 }, &vec![Point { x: i32::MIN, y: 0 }]));
}

#[test]
fn check_is_false_on_a_cell_that_is_not_empty() {
    let mut b = Board::new(8, 8);
    let one = vec![Point { x: 0, y: 0 }];
    assert!(!b.check(&Point { x: 3, y: 3 }, &one));
    assert!(b.check(&Point { x: 2, y: 3 }, &one));
    b.place(&Point { x: 2, y: 3 }, &one, 'F');
    assert!(!b.check(&Point { x: 2, y: 3 }, &one));
    let pair = vec![Point { x: 0, y: 0 }, Point { x: 1, y: 0 }];
    assert!(!b.check(&Point { x: 1, y: 3 }, &pair));
    assert!(b.check(&Point { x: 0, y: 3 }, &pair));
}

#[test]
fn check_of_a_shape_without_points_is_true() {
    let b = Board::new(0, 0);
    assert!(b.check(&Point { x: 5, y: 5 }, &vec![]));
}

#[test]
fn place_labels_the_cells_of_the_shape() {
    let mut b = Board::new(4, 3);
    let f = vec![
        Point { x: 0, y: 0 },
        Point { x: 1, y: 0 },
        Point { x: -1, y: 1 },
        Point { x: 0, y: 1 },
        Point { x: 0, y: 2 },
    ];
    b.place(&Point { x: 1, y: 0 }, &f, 'F');
    assert_eq!(rows(&b), vec![" FF ", "FF  ", " F  "]);
    assert_eq!(b.count_free(), 7);
    assert_eq!(b.width, 4);
    assert_eq!(b.height, 3);
}

#[test]
fn place_then_clear_restores_the_board() {
    let mut b = Board::new(8, 8);
    let before = rows(&b);
    let l = vec![
        Point { x: 0, y: 0 },
        Point { x: 0, y: 1 },
        Point { x: 0, y: 2 },
        Point { x: 0, y: 3 },
        Point { x: 1, y: 3 },
    ];
    let at = Point { x: 0, y: 1 };
    assert!(b.check(&at, &l));
    b.place(&at, &l, 'L');
    assert_ne!(rows(&b), before);
    b.clear(&at, &l);
    assert_eq!(rows(&b), before);
}

#[test]
fn clear_empties_cells_whatever_they_held() {
    let mut b = Board::new(8, 8);
    b.clear(&Point { x: 3, y: 3 }, &vec![Point { x: 0, y: 0 }]);
    assert_eq!(b.at(3, 3), ' ');
    assert_eq!(b.count_free(), 61);
}

#[test]
fn find_space_scans_row_by_row() {
    let mut b = Board::new(3, 3);
    assert_eq!(b.find_space(&Point { x: 0, y: 0 }), Point { x: 0, y: 0 });
    assert_eq!(b.find_space(&Point { x: 2, y: 1 }), Point { x: 2, y: 1 });
    let row = vec![Point { x: 0, y: 0 }, Point { x: 1, y: 0 }, Point { x: 2, y: 0 }];
    b.place(&Point { x: 0, y: 0 }, &row, 'a');
    assert_eq!(b.find_space(&Point { x: 0, y: 0 }), Point { x: 0, y: 1 });
    assert_eq!(b.find_space(&Point { x: 2, y: 0 }), Point { x: 0, y: 1 });
    b.place(&Point { x: 0, y: 1 }, &vec![Point { x: 0, y: 0 }, Point { x: 1, y: 0 }], 'b');
    assert_eq!(b.find_space(&Point { x: 1, y: 0 }), Point { x: 2, y: 1 });
    b.place(&Point { x: 2, y: 1 }, &vec![Point { x: 0, y: 0 }], 'c');
    assert_eq!(b.find_space(&Point { x: 0, y: 0 }), Point { x: 0, y: 2 });
    assert_eq!(b.find_space(&Point { x: 1, y: 2 }), Point { x: 1, y: 2 });
}

#[test]
fn find_space_passes_over_blocked_cells() {
    let b = Board::new(8, 8);
    assert_eq!(b.find_space(&Point { x: 3, y: 3 }), Point { x: 5, y: 3 });
    assert_eq!(b.find_space(&Point { x: 4, y: 4 }), Point { x: 5, y: 4 });
}

#[test]
fn find_space_starts_before_the_first_row() {
    let b = Board::new(3, 2);
    assert_eq!(b.find_space(&Point { x: 1, y: -2 }), Point { x: 0, y: 0 });
}

#[test]
fn filled_up_to_looks_for_empty_cells_before_a_point() {
    let mut b = Board::new(3, 2);
    assert!(b.filled_up_to(&Point { x: 0, y: 0 }));
    assert!(!b.filled_up_to(&Point { x: 1, y: 0 }));
    b.place(&Point { x: 0, y: 0 }, &vec![Point { x: 0, y: 0 }], 'a');
    assert!(b.filled_up_to(&Point { x: 1, y: 0 }));
    assert!(!b.filled_up_to(&Point { x: 0, y: 1 }));
    assert!(b.filled_up_to(&Point { x: -5, y: 1 }) == false);
}

#[test]
fn snapshot_copies_the_board() {
    let mut b = Board::new(8, 8);
    let copy = b.snapshot();
    b.place(&Point { x: 0, y: 0 }, &vec![Point { x: 0, y: 0 }], 'a');
    assert_eq!(copy.width, 8);
    assert_eq!(copy.height, 8);
    assert_eq!(copy.at(0, 0), ' ');
    assert_eq!(copy.at(3, 3), '@');
    assert_eq!(b.at(0, 0), 'a');
}

#[test]
fn the_glyph_table() {
    let top = ["    ", "", "", "+---", "", "----", "+   ", "+---", "", "+---", "|   ", "+---", "+   ", "+---", "+   ", "+---"];
    let bottom = ["    ", "", "", "    ", "", "    ", "    ", "    ", "", "|   ", "|   ", "|   ", "|   ", "|   ", "|   ", "|   "];
    for code in 0..16 {
        assert_eq!(glyph_str(0, code), top[code]);
        assert_eq!(glyph_str(1, code), bottom[code]);
    }
}

#[test]
fn corner_codes_add_up_the_sides_that_differ() {
    let mut b = Board::new(2, 1);
    assert_eq!(b.corner_code(0, 0), 9);
    assert_eq!(b.corner_code(1, 0), 5);
    assert_eq!(b.corner_code(2, 0), 12);
    assert_eq!(b.corner_code(0, 1), 3);
    assert_eq!(b.corner_code(1, 1), 5);
    assert_eq!(b.corner_code(2, 1), 6);
    assert_eq!(b.corner_code(5, 5), 0);
    b.place(&Point { x: 1, y: 0 }, &vec![Point { x: 0, y: 0 }], 'a');
    assert_eq!(b.corner_code(1, 0), 13);
    assert_eq!(b.corner_code(1, 1), 7);
}

#[test]
fn render_draws_the_border_of_an_empty_board() {
    assert_eq!(Board::new(2, 1).render(), "+-------+   \n|       |   \n+-------+   \n            ");
}

#[test]
fn render_draws_the_blocked_centre() {
    let text = Board::new(8, 8).render();
    assert_eq!(text, "+-------------------------------+   \n|                               |   \n|                               |   \n|                               |   \n|                               |   \n|                               |   \n|           +-------+           |   \n|           |       |           |   \n|           |       |           |   \n|           |       |           |   \n|           +-------+           |   \n|                               |   \n|                               |   \n|                               |   \n|                               |   \n|                               |   \n+-------------------------------+   \n                                    ");
    assert_eq!(text.lines().count(), 2 * 8 + 2);
}

#[test]
fn render_draws_the_borders_between_pieces() {
    let mut b = Board::new(3, 2);
    b.place(&Point { x: 0, y: 0 }, &vec![Point { x: 0, y: 0 }, Point { x: 1, y: 0 }, Point { x: 0, y: 1 }], 'A');
    b.place(&Point { x: 2, y: 0 }, &vec![Point { x: 0, y: 0 }, Point { x: 0, y: 1 }, Point { x: -1, y: 1 }], 'B');
    assert_eq!(b.render(), "+-------+---+   \n|       |   |   \n|   +---+   |   \n|   |       |   \n+---+-------+   \n                ");
}

#[test]
fn render_of_a_board_without_cells() {
    assert_eq!(Board::new(0, 0).render(), "    \n    ");
}
