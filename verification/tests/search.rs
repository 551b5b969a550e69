use pentomino::board::Board;
use pentomino::config::Config;
use pentomino::piece::{Piece};
use pentomino::point::Point;
use pentomino::pool::Pool;
use pentomino::search::{piece_usable, search};
use pentomino::solver::{frame, Solver};
use pentomino::table::piece_def;

fn origin() -> Point {
    Point { x: 0, y: 0 }
}

fn frames(width: i32, height: i32) -> Vec<String> {
    let mut solver = Solver::new(width, height);
    assert!(solver.is_ready(&origin()));
    solver.solve(&origin())
}

fn rows(b: &Board) -> Vec<String> {
    b.cells.iter().map(|r| r.iter().collect()).collect()
}

#[test]
fn a_new_solver_holds_the_catalog_and_a_full_pool() {
    let s = Solver::new(6, 10);
    assert_eq!(s.solutions, 0);
    assert_eq!(s.board.width, 6);
    assert_eq!(s.board.height, 10);
    assert_eq!(s.pool.to_vec(), vec![1, 2, 3, 4, 5, 6, 7, 8, 9, 10, 11, 12]);
    assert_eq!(s.pieces.len(), 13);
    assert_eq!(s.pieces[0].id, '!');
    let ids: String = s.pieces.iter().skip(1).map(|p| p.id).collect();
    assert_eq!(ids, "FLINPTUVWXYZ");
    let counts: Vec<usize> = s.pieces.iter().map(|p| p.figs.len()).collect();
    assert_eq!(counts, vec![1, 2, 8, 2, 8, 8, 4, 4, 4, 4, 1, 8, 4]);
    for k in 2..13 {
        assert_eq!(s.pieces[k].figs, Piece::new(s.pieces[k].id, piece_def(s.pieces[k].id)).figs);
    }
}

#[test]
fn the_first_piece_keeps_one_orientation_on_a_square_board() {
    let all = Piece::new('F', piece_def('F')).figs;
    let square = Solver::new(8, 8);
    assert_eq!(square.pieces[1].figs, vec![all[0].clone()]);
    let oblong = Solver::new(3, 20);
    assert_eq!(oblong.pieces[1].figs, vec![all[0].clone(), all[1].clone()]);
    assert_eq!(Solver::new(10, 6).pieces[1].figs.len(), 2);
    assert_eq!(Solver::new(4, 4).pieces[1].figs.len(), 1);
}

#[test]
fn solve_can_follow_new_at_once_on_an_accepted_size() {
    let mut solver = Solver::new(3, 20);
    assert_eq!(solver.solve(&origin()).len(), 2);
}

#[test]
fn a_solver_is_ready_on_the_accepted_sizes() {
    for (w, h) in [(3, 20), (20, 3), (4, 15), (15, 4), (5, 12), (12, 5), (6, 10), (10, 6), (8, 8), (4, 16), (16, 4)]
    {
        assert!(Solver::new(w, h).is_ready(&origin()));
    }
}

#[test]
fn a_solver_is_not_ready_where_the_area_does_not_match() {
    assert!(!Solver::new(5, 5).is_ready(&origin()));
    assert!(!Solver::new(10, 10).is_ready(&origin()));
    assert!(!Solver::new(0, 0).is_ready(&origin()));
    assert!(Solver::new(5, 5).run().is_none());
}

#[test]
fn a_solver_is_not_ready_from_a_point_off_the_first_cell() {
    let s = Solver::new(6, 10);
    assert!(!s.is_ready(&Point { x: 1, y: 0 }));
    assert!(!s.is_ready(&Point { x: 0, y: 1 }));
    assert!(!s.is_ready(&Point { x: -1, y: 0 }));
    assert!(!s.is_ready(&Point { x: 6, y: -1 }));
    assert!(s.is_ready(&Point { x: 0, y: -1 }));
}

#[test]
fn a_solver_is_not_ready_with_a_piece_that_is_not_usable() {
    let mut s = Solver::new(6, 10);
    s.pieces[5].figs[0].pop();
    assert!(!s.is_ready(&origin()));
    let mut t = Solver::new(6, 10);
    t.pieces[7].id = ' ';
    assert!(!t.is_ready(&origin()));
    let mut u = Solver::new(6, 10);
    u.pieces[12].limit(3);
    assert!(u.is_ready(&origin()));
    u.pieces[12].limit(5);
    assert!(!u.is_ready(&origin()));
}

#[test]
fn piece_usable_asks_for_five_distinct_cells_and_a_letter() {
    assert!(piece_usable(&Piece::new('F', piece_def('F'))));
    assert!(!piece_usable(&Piece::new(' ', piece_def('F'))));
    assert!(!piece_usable(&Piece::new('!', vec![])));
    assert!(!piece_usable(&Piece::new('d', vec![vec![0, 0], vec![1, 0], vec![2, 0], vec![3, 0], vec![3, 0]])));
    assert!(!piece_usable(&Piece::new('s', vec![vec![0, 0], vec![1, 0], vec![2, 0], vec![3, 0], vec![4, 0], vec![5, 0]])));
    let mut none = Piece::new('n', piece_def('I'));
    none.limit(0);
    assert!(piece_usable(&none));
}

#[test]
fn three_by_twenty_has_two_solutions() {
    let found = frames(3, 20);
    assert_eq!(found.len(), 2);
    assert_eq!(found[0], "+-----------+   \n|           |   \n|   +---+   |   \n|   |   |   |   \n+---+   +---+   \n|           |   \n+---+   +---+   \n|   |   |   |   \n|   +---+   |   \n|   |       |   \n|   |       |   \n|   |       |   \n|   +-------+   \n|   |       |   \n|   |   +---+   \n|   |   |   |   \n+---+   |   |   \n|       |   |   \n+---+---+   |   \n|   |       |   \n|   +---+   |   \n|       |   |   \n+---+   +---+   \n|   |       |   \n|   +-------+   \n|           |   \n|   +-------+   \n|   |       |   \n+---+   +---+   \n|       |   |   \n+---+   |   |   \n|   |   |   |   \n|   +---+   |   \n|   |       |   \n|   |   +---+   \n|   |   |   |   \n|   +---+   |   \n|       |   |   \n+-------+   |   \n|           |   \n+-----------+   \n                1");
    assert_eq!(found[1], "\x1b[42A+-----------+   \n|           |   \n|   +-------+   \n|   |       |   \n|   |   +---+   \n|   |   |   |   \n+---+   |   |   \n|       |   |   \n+---+---+   |   \n|   |       |   \n|   +---+   |   \n|       |   |   \n+---+   +---+   \n|   |       |   \n|   +-------+   \n|           |   \n|   +-------+   \n|   |       |   \n+---+   +---+   \n|       |   |   \n+---+   |   |   \n|   |   |   |   \n|   +---+   |   \n|   |       |   \n|   |   +---+   \n|   |   |   |   \n|   +---+   |   \n|       |   |   \n+-------+   |   \n|       |   |   \n|       |   |   \n|       |   |   \n|   +---+   |   \n|   |   |   |   \n+---+   +---+   \n|           |   \n+---+   +---+   \n|   |   |   |   \n|   +---+   |   \n|           |   \n+-----------+   \n                2");
}

#[test]
fn three_by_twenty_solutions_as_boards() {
    let mut solver = Solver::new(3, 20);
    let found = solver.search(&origin());
    assert_eq!(found.len(), 2);
    assert_eq!(rows(&found[0]), vec!["UUU", "UXU", "XXX", "IXP", "IPP", "IPP", "IZZ", "IZY", "ZZY", "WYY", "WWY", "TWW", "TTT", "TFF", "FFN", "LFN", "LNN", "LNV", "LLV", "VVV"]);
    assert_eq!(rows(&found[1]), vec!["VVV", "VZZ", "VZY", "ZZY", "WYY", "WWY", "TWW", "TTT", "TFF", "FFN", "LFN", "LNN", "LNI", "LLI", "PPI", "PPI", "PXI", "XXX", "UXU", "UUU"]);
}

#[test]
fn eight_by_eight_with_hole_has_sixty_five_solutions() {
    let mut solver = Solver::new(8, 8);
    assert_eq!(solver.board.at(3, 3), '@');
    assert_eq!(solver.board.at(4, 3), '@');
    assert_eq!(solver.board.at(3, 4), '@');
    assert_eq!(solver.board.at(4, 4), '@');
    let found = solver.search(&origin());
    assert_eq!(found.len(), 65);
    assert_eq!(rows(&found[0]), vec!["LNWYYYYZ", "LNWWYZZZ", "LNNWWZFF", "LLN@@FFI", "PPP@@XFI", "TPPVXXXI", "TTTVUXUI", "TVVVUUUI"]);
    assert_eq!(rows(&found[64]), vec!["ZVVVLLLL", "ZZZVLNNN", "WWZVNNFF", "YWW@@FFI", "YYW@@XFI", "YTPPXXXI", "YTPPUXUI", "TTTPUUUI"]);
    assert_eq!(found[0].render(), "+---+---+---+---------------+---+   \n|   |   |   |               |   |   \n|   |   |   +---+   +-------+   |   \n|   |   |       |   |           |   \n|   |   +---+   +---+   +-------+   \n|   |       |       |   |       |   \n|   +---+   +-------+---+   +---+   \n|       |   |       |       |   |   \n+-------+---+       +---+   |   |   \n|           |       |   |   |   |   \n+---+       +---+---+   +---+   |   \n|   |       |   |           |   |   \n|   +-------+   +---+   +---+   |   \n|           |   |   |   |   |   |   \n|   +-------+   |   +---+   |   |   \n|   |           |           |   |   \n+---+-----------+-----------+---+   \n                                    ");
}

#[test]
fn eight_by_eight_frames_are_numbered_and_move_the_cursor_up() {
    let found = frames(8, 8);
    assert_eq!(found.len(), 65);
    assert!(found[0].starts_with("+---"));
    assert!(found[0].ends_with(" 1"));
    for k in 1..65 {
        assert!(found[k].starts_with("\x1b[18A+---"));
        assert!(found[k].ends_with(&format!(" {}", k + 1)));
    }
}

#[test]
fn an_argument_that_names_no_size_leaves_six_by_ten() {
    let config = Config::from_args(&vec!["pentomino".to_string(), "bogus".to_string()]);
    assert_eq!(config, Config { width: 6, height: 10, debug: false });
    let mut solver = Solver::new(config.width, config.height);
    let found = solver.run();
    assert_eq!(found.map(|f| f.len()), Some(2339));
    assert_eq!(solver.solutions, 2339);
}

#[test]
fn every_solution_uses_each_piece_once_and_fills_the_board() {
    for (w, h) in [(3, 20), (8, 8)] {
        let mut solver = Solver::new(w, h);
        let start = rows(&solver.board);
        let found = solver.search(&origin());
        assert!(!found.is_empty());
        for b in &found {
            let text: String = rows(b).concat();
            for id in "FLINPTUVWXYZ".chars() {
                assert_eq!(text.chars().filter(|c| *c == id).count(), 5);
            }
            assert_eq!(text.chars().filter(|c| *c == ' ').count(), 0);
            assert_eq!(text.chars().filter(|c| *c == '@').count(), (w * h - 60) as usize);
            for (y, row) in rows(b).iter().enumerate() {
                for (x, c) in row.chars().enumerate() {
                    let was = start[y].chars().nth(x).unwrap();
                    assert!(was == ' ' || was == c);
                }
            }
        }
        for a in 0..found.len() {
            for b in 0..a {
                assert_ne!(rows(&found[a]), rows(&found[b]));
            }
        }
    }
}

#[test]
fn four_by_fifteen_has_368_solutions() {
    let mut solver = Solver::new(4, 15);
    let found = solver.search(&origin());
    assert_eq!(found.len(), 368);
    assert_eq!(
        rows(&found[0]),
        vec![
            "LUUU", "LUFU", "LFFF", "LLNF", "WWNN", "IWWN", "ITWN", "ITTT", "ITPP", "IXPP", "XXXP",
            "YXZZ", "YYZV", "YZZV", "YVVV"
        ]
    );
    assert_eq!(
        rows(&found[367]),
        vec![
            "ZVVV", "ZZZV", "WWZV", "NWWY", "NNWY", "LNYY", "LNFY", "LFFF", "LLXF", "IXXX", "IUXU",
            "IUUU", "ITPP", "ITPP", "TTTP"
        ]
    );
}

#[test]
fn six_by_ten_solutions_come_in_the_order_of_the_search() {
    let mut solver = Solver::new(6, 10);
    let found = solver.search(&origin());
    assert_eq!(found.len(), 2339);
    assert_eq!(
        rows(&found[0]),
        vec![
            "LPPUUY", "LPPUYY", "LPNUUY", "LLNWWY", "INNXWW", "INXXXW", "IZZXFF", "ITZFFV",
            "ITZZFV", "TTTVVV"
        ]
    );
    assert_eq!(
        rows(&found[1000]),
        vec![
            "PPPVVV", "PPZVNL", "ZZZVNL", "ZWWNNL", "WWYNLL", "WYYYYT", "UUXTTT", "UXXXFT",
            "UUXFFF", "IIIIIF"
        ]
    );
    assert_eq!(
        rows(&found[2338]),
        vec![
            "ZYYYYW", "ZZZYWW", "PPZWWI", "PPVVVI", "TPUUVI", "TTTUVI", "TXUUNI", "XXXFNN",
            "LXFFFN", "LLLLFN"
        ]
    );
}

#[test]
fn a_search_leaves_the_solver_as_it_was() {
    let mut solver = Solver::new(3, 20);
    let links = solver.pool.next.clone();
    let cells = solver.board.cells.clone();
    let found = solver.solve(&origin());
    assert_eq!(solver.solutions, 2);
    assert_eq!(solver.pool.next, links);
    assert_eq!(solver.board.cells, cells);
    assert_eq!(solver.search(&origin()).len(), 2);
    assert_eq!(solver.solutions, 2);
    assert_eq!(found.len(), 2);
}

#[test]
fn a_new_solver_has_thirteen_links() {
    let s = Solver::new(8, 8);
    assert_eq!(s.pool.next, vec![1, 2, 3, 4, 5, 6, 7, 8, 9, 10, 11, 12, 0]);
}

#[test]
fn the_count_of_solutions_runs_on_from_one_search_to_the_next() {
    let mut solver = Solver::new(3, 20);
    let first = solver.solve(&origin());
    assert_eq!(solver.solutions, 2);
    let second = solver.solve(&origin());
    assert_eq!(solver.solutions, 4);
    assert_eq!(second.len(), 2);
    let picture = |frame: &String| frame.trim_start_matches("\x1b[42A").trim_end_matches(char::is_numeric).to_string();
    assert!(first[0].ends_with(" 1") && !first[0].starts_with("\x1b"));
    assert!(first[1].ends_with(" 2") && first[1].starts_with("\x1b[42A"));
    assert!(second[0].ends_with(" 3") && second[0].starts_with("\x1b[42A"));
    assert!(second[1].ends_with(" 4") && second[1].starts_with("\x1b[42A"));
    assert_eq!(picture(&second[0]), picture(&first[0]));
    assert_eq!(picture(&second[1]), picture(&first[1]));
    let third = solver.run().unwrap();
    assert_eq!(solver.solutions, 6);
    assert!(third[1].ends_with(" 6"));
}

#[test]
fn a_solved_state_counts_one_more() {
    let mut solver = Solver::new(3, 20);
    let solved = solver.search(&origin()).remove(0);
    let drawing = solved.render();
    solver.board = solved;
    while !solver.pool.is_empty() {
        let first = solver.pool.after(0);
        solver.pool.remove(first, 0);
    }
    solver.solutions = 3;
    assert!(solver.is_ready(&origin()));
    let frames = solver.solve(&origin());
    assert_eq!(solver.solutions, 4);
    assert_eq!(frames, vec![format!("\x1b[42A{}4", drawing)]);
    solver.solutions = 0;
    assert_eq!(solver.solve(&origin()), vec![format!("{}1", drawing)]);
    assert_eq!(solver.solutions, 1);
    solver.solutions = 1;
    assert_eq!(solver.solve(&origin()), vec![format!("\x1b[42A{}2", drawing)]);
}

#[test]
fn show_numbers_the_boards_it_is_given() {
    let mut solver = Solver::new(3, 20);
    let found = solver.search(&origin());
    solver.solutions = 9;
    let frames = solver.show(&found);
    assert_eq!(solver.solutions, 11);
    assert_eq!(frames.len(), 2);
    assert_eq!(frames[0], format!("\x1b[42A{}10", found[0].render()));
    assert_eq!(frames[1], format!("\x1b[42A{}11", found[1].render()));
    let none = solver.show(&vec![]);
    assert!(none.is_empty());
    assert_eq!(solver.solutions, 11);
}

#[test]
fn run_gives_nothing_where_the_count_would_not_fit() {
    let mut solver = Solver::new(3, 20);
    solver.solutions = u128::MAX - 1;
    assert!(solver.run().is_none());
    assert_eq!(solver.solutions, u128::MAX - 1);
    solver.solutions = u128::MAX - 2;
    let frames = solver.run().unwrap();
    assert_eq!(solver.solutions, u128::MAX);
    assert!(frames[1].ends_with(" 340282366920938463463374607431768211455"));
}

#[test]
fn search_appends_to_what_was_found_before() {
    let s = Solver::new(3, 20);
    let mut board = Board::new(3, 20);
    let mut pool = Pool::new(12);
    let mut found = vec![Board::new(3, 20)];
    search(&s.pieces, &mut board, &mut pool, &origin(), &mut found);
    assert_eq!(found.len(), 3);
    assert_eq!(found[0].count_free(), 60);
    assert_eq!(found[1].count_free(), 0);
}

#[test]
fn search_with_an_empty_pool_finds_the_board_as_it_is() {
    let cat = vec![Piece::new('!', vec![])];
    let mut board = Board::new(1, 1);
    board.place(&origin(), &vec![origin()], '#');
    let mut pool = Pool::new(0);
    let mut found = vec![];
    search(&cat, &mut board, &mut pool, &origin(), &mut found);
    assert_eq!(found.len(), 1);
    assert_eq!(found[0].at(0, 0), '#');
}

#[test]
fn search_tries_the_pieces_in_pool_order_and_the_shapes_in_catalog_order() {
    let bar = Piece::new('a', vec![vec![0, 0], vec![1, 0], vec![2, 0], vec![3, 0], vec![4, 0]]);
    let again = Piece::new('b', vec![vec![0, 0], vec![1, 0], vec![2, 0], vec![3, 0], vec![4, 0]]);
    let cat = vec![Piece::new('!', vec![]), bar, again];
    let mut board = Board::new(5, 2);
    let mut pool = Pool::new(2);
    let mut found = vec![];
    search(&cat, &mut board, &mut pool, &origin(), &mut found);
    let seen: Vec<Vec<String>> = found.iter().map(rows).collect();
    assert_eq!(seen, vec![vec!["aaaaa", "bbbbb"], vec!["bbbbb", "aaaaa"]]);
    let mut tall = Board::new(2, 5);
    let mut found = vec![];
    search(&cat, &mut tall, &mut pool, &origin(), &mut found);
    let seen: Vec<Vec<String>> = found.iter().map(rows).collect();
    assert_eq!(seen, vec![vec!["ab"; 5], vec!["ba"; 5]]);
}

#[test]
fn frame_numbers_the_first_solution_without_moving_the_cursor() {
    assert_eq!(frame(1, 10, "picture"), "picture1");
    assert_eq!(frame(0, 10, ""), "0");
}

#[test]
fn frame_moves_the_cursor_up_by_the_height_of_the_picture() {
    assert_eq!(frame(2, 10, "picture"), "\x1b[22Apicture2");
    assert_eq!(frame(2339, 20, "p\nq"), "\x1b[42Ap\nq2339");
    assert_eq!(frame(7, 0, "x"), "\x1b[2Ax7");
    assert_eq!(frame(3, -1, "x"), "\x1b[0Ax3");
    assert_eq!(frame(3, -5, "x"), "\x1b[-8Ax3");
    assert_eq!(frame(3, i32::MAX, "x"), "\x1b[4294967296Ax3");
    assert_eq!(frame(u128::MAX, 1, "x"), "\x1b[4Ax340282366920938463463374607431768211455");
}
