use pentomino::piece::Piece;
use pentomino::program::{output, show_catalog};
use pentomino::table::piece_def;

fn args(list: &[&str]) -> Vec<String> {
    list.iter().map(|s| s.to_string()).collect()
}

#[test]
fn show_catalog_lists_every_piece_and_the_empty_entry() {
    let lines = show_catalog();
    assert_eq!(lines.len(), 13);
    assert_eq!(lines[0], "F:(8)\n[(0,0), (1,0), (-1,1), (0,1), (0,2)]\n[(0,0), (-1,1), (0,1), (1,1), (1,2)]\n[(0,0), (0,1), (1,1), (-1,2), (0,2)]\n[(0,0), (0,1), (1,1), (2,1), (1,2)]\n[(0,0), (1,0), (1,1), (2,1), (1,2)]\n[(0,0), (-1,1), (0,1), (1,1), (-1,2)]\n[(0,0), (-1,1), (0,1), (0,2), (1,2)]\n[(0,0), (-2,1), (-1,1), (0,1), (-1,2)]\n");
    assert_eq!(lines[9], "X:(1)\n[(0,0), (-1,1), (0,1), (1,1), (0,2)]\n");
    assert_eq!(lines[12], "!:(1)\n[]\n");
    for (k, id) in "FLINPTUVWXYZ".chars().enumerate() {
        assert_eq!(lines[k], Piece::new(id, piece_def(id)).to_s());
    }
}

#[test]
fn output_for_three_by_twenty() {
    let lines = output(&args(&["pentomino", "3x20"]));
    assert_eq!(lines.len(), 2);
    assert_eq!(lines[0], "+-----------+   \n|           |   \n|   +---+   |   \n|   |   |   |   \n+---+   +---+   \n|           |   \n+---+   +---+   \n|   |   |   |   \n|   +---+   |   \n|   |       |   \n|   |       |   \n|   |       |   \n|   +-------+   \n|   |       |   \n|   |   +---+   \n|   |   |   |   \n+---+   |   |   \n|       |   |   \n+---+---+   |   \n|   |       |   \n|   +---+   |   \n|       |   |   \n+---+   +---+   \n|   |       |   \n|   +-------+   \n|           |   \n|   +-------+   \n|   |       |   \n+---+   +---+   \n|       |   |   \n+---+   |   |   \n|   |   |   |   \n|   +---+   |   \n|   |       |   \n|   |   +---+   \n|   |   |   |   \n|   +---+   |   \n|       |   |   \n+-------+   |   \n|           |   \n+-----------+   \n                1");
    assert_eq!(lines[1], "\x1b[42A+-----------+   \n|           |   \n|   +-------+   \n|   |       |   \n|   |   +---+   \n|   |   |   |   \n+---+   |   |   \n|       |   |   \n+---+---+   |   \n|   |       |   \n|   +---+   |   \n|       |   |   \n+---+   +---+   \n|   |       |   \n|   +-------+   \n|           |   \n|   +-------+   \n|   |       |   \n+---+   +---+   \n|       |   |   \n+---+   |   |   \n|   |   |   |   \n|   +---+   |   \n|   |       |   \n|   |   +---+   \n|   |   |   |   \n|   +---+   |   \n|       |   |   \n+-------+   |   \n|       |   |   \n|       |   |   \n|       |   |   \n|   +---+   |   \n|   |   |   |   \n+---+   +---+   \n|           |   \n+---+   +---+   \n|   |   |   |   \n|   +---+   |   \n|           |   \n+-----------+   \n                2");
}

#[test]
fn output_with_the_debug_flag_shows_the_catalog_first() {
    let lines = output(&args(&["pentomino", "--debug", "3x20"]));
    assert_eq!(lines.len(), 15);
    assert_eq!(lines[..13], show_catalog()[..]);
    assert_eq!(lines[13..], output(&args(&["3x20"]))[..]);
}

#[test]
fn output_for_eight_by_eight() {
    let lines = output(&args(&["8x8"]));
    assert_eq!(lines.len(), 65);
    assert!(lines[64].ends_with(" 65"));
}

#[test]
fn output_for_an_argument_that_names_no_size() {
    let lines = output(&args(&["pentomino", "bogus"]));
    assert_eq!(lines.len(), 2339);
    assert!(lines[0].ends_with(" 1"));
    assert!(lines[2338].starts_with("\x1b[22A"));
    assert!(lines[2338].ends_with(" 2339"));
    assert_eq!(lines[0].lines().count(), 22);
}
