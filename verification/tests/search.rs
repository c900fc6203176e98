use chomp::play::read_choice;
use chomp::Board;

#[test]
fn winning_chomper() {
    let mut board = Board::new(5, 4);
    _ = board.chomp(1, 2);
    match board.winning_move() {
        Some(x) => assert_eq!(x, (2, 1)),
        None => assert!(false),
    }
}

#[test]
fn lone_poison_cell_cannot_be_won() {
    let board = Board::new(1, 1);
    assert_eq!(board.winning_move(), None);
    let mut board = Board::new(5, 4);
    _ = board.chomp(1, 2);
    _ = board.chomp(2, 1);
    assert_eq!(board.winning_move(), None);
}

#[test]
fn empty_board_cannot_be_won() {
    let mut board = Board::new(2, 2);
    _ = board.chomp(1, 1);
    assert_eq!(board.winning_move(), None);
    assert_eq!(Board::new(0, 0).winning_move(), None);
}

#[test]
fn single_row_is_won_by_leaving_the_poison() {
    assert_eq!(Board::new(2, 1).winning_move(), Some((1, 2)));
    assert_eq!(Board::new(5, 1).winning_move(), Some((1, 2)));
    assert_eq!(Board::new(1, 4).winning_move(), Some((2, 1)));
}

#[test]
fn square_is_won_at_the_second_diagonal_cell() {
    assert_eq!(Board::new(2, 2).winning_move(), Some((2, 2)));
    assert_eq!(Board::new(3, 3).winning_move(), Some((2, 2)));
}

#[test]
fn equal_arms_cannot_be_won() {
    let mut board = Board::new(3, 3);
    _ = board.chomp(2, 2);
    assert_eq!(board.winning_move(), None);
    assert_eq!(board.find_smallest_chomp(), Some((3, 1)));
}

#[test]
fn first_winning_move_in_reading_order_is_returned() {
    let board = Board::new(3, 2);
    assert_eq!(board.winning_move(), Some((2, 3)));
    let mut board = Board::new(3, 2);
    _ = board.chomp(2, 3);
    assert_eq!(board.winning_move(), None);
    let mut board = Board::new(3, 2);
    _ = board.chomp(1, 3);
    assert_eq!(board.winning_move(), Some((2, 2)));
}

#[test]
fn search_never_offers_the_poison_cell() {
    for rows in 0..=3u8 {
        for columns in 0..=3u8 {
            for row in 1..=3u8 {
                for column in 1..=3u8 {
                    let mut board = Board::new(columns, rows);
                    _ = board.chomp(row, column);
                    assert_ne!(board.winning_move(), Some((1, 1)));
                }
            }
        }
    }
}

#[test]
fn search_leaves_the_board_alone() {
    let mut board = Board::new(3, 3);
    _ = board.chomp(3, 2);
    let before = board.render();
    _ = board.winning_move();
    assert_eq!(board.render(), before);
}

#[test]
fn computer_plays_the_winning_move() {
    let mut board = Board::new(5, 4);
    _ = board.chomp(1, 2);
    assert_eq!(board.computer_move(), Some(((2, 1), false)));
    assert_eq!(board.render(), "x    \n     \n     \n     \n");
}

#[test]
fn computer_falls_back_to_the_last_cell() {
    let mut board = Board::new(3, 3);
    _ = board.chomp(2, 2);
    assert_eq!(board.computer_move(), Some(((3, 1), false)));
    assert_eq!(board.render(), "xxx\nx  \n   \n");
}

#[test]
fn computer_takes_the_poison_when_nothing_else_is_left() {
    let mut board = Board::new(1, 1);
    assert_eq!(board.computer_move(), Some(((1, 1), true)));
    assert_eq!(board.render(), " \n");
    assert_eq!(board.computer_move(), None);
    assert_eq!(board.render(), " \n");
}

#[test]
fn choice_is_a_number_in_range() {
    assert_eq!(read_choice("3", 4), Some(3));
    assert_eq!(read_choice("1", 4), Some(1));
    assert_eq!(read_choice("4", 4), Some(4));
    assert_eq!(read_choice("+2", 4), Some(2));
    assert_eq!(read_choice("004", 4), Some(4));
    assert_eq!(read_choice("255", 255), Some(255));
}

#[test]
fn choice_out_of_range_or_not_a_number_is_none() {
    assert_eq!(read_choice("0", 4), None);
    assert_eq!(read_choice("5", 4), None);
    assert_eq!(read_choice("256", 255), None);
    assert_eq!(read_choice("1", 0), None);
    assert_eq!(read_choice("", 4), None);
    assert_eq!(read_choice(" 2", 4), None);
    assert_eq!(read_choice("2 ", 4), None);
    assert_eq!(read_choice("-2", 4), None);
    assert_eq!(read_choice("two", 4), None);
    assert_eq!(read_choice("99999999999999999999999", 4), None);
}
