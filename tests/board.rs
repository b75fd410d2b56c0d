use scrabble::{board_from_contents, Direction, Position, ScrabbleBoard, ScrabbleError, ScrabblePlay};

const DEFAULT_DISPLAY: &str = "\
6  2       2  6
 4   3   3   4 
  4   2 2   4  
2  4   2   4  2
    4     4    
 3   3   3   3 
  2   2 2   2  
   2   4   2   
  2   2 2   2  
 3   3   3   3 
    4     4    
2  4   2   4  2
  4   2 2   4  
 4   3   3   4 
6  2       2  6
";

const HELLO_DISPLAY: &str = "\
6  2       2  6
 4   3   3   4 
  4   2 2   4  
2  4   2   4  2
    4     4    
 3   3   3   3 
  2   2 2   2  
   2   hello   
  2   2 2   2  
 3   3   3   3 
    4     4    
2  4   2   4  2
  4   2 2   4  
 4   3   3   4 
6  2       2  6
";

fn hello_play(direction: Direction) -> ScrabblePlay {
    ScrabblePlay {
        start: Position { row: 7, col: 7 },
        direction,
        word: "hello".to_string(),
    }
}

#[test]
fn board_test_default_display() {
    let expected = DEFAULT_DISPLAY;
    let actual = ScrabbleBoard::default().display();
    assert_eq!(expected, actual)
}

#[test]
fn scrabble_test_default_display() {
    let expected = DEFAULT_DISPLAY;
    let actual = ScrabbleBoard::default().display();
    assert_eq!(expected, actual)
}

#[test]
fn scrabble_board_test_default_display() {
    let expected = DEFAULT_DISPLAY;
    let actual = ScrabbleBoard::default().display();
    assert_eq!(expected, actual)
}

#[test]
fn board_test_add_word() {
    let mut board = ScrabbleBoard::default();
    let play = hello_play(Direction::Horizontal);
    board.add_play(&play);
    let actual = board.display();
    assert_eq!(HELLO_DISPLAY, actual);
}

#[test]
fn scrabble_board_test_add_word() {
    let mut board = ScrabbleBoard::default();
    let start = Position { row: 7, col: 7 };
    board.add_word("hello", start, Direction::Horizontal);
    let actual = board.display();
    assert_eq!(HELLO_DISPLAY, actual);
}

#[test]
fn board_test_preceding_horizontal() {
    let mut board = ScrabbleBoard::default();
    board.add_play(&hello_play(Direction::Horizontal));
    let position = Position { row: 7, col: 12 };
    let actual = board.preceding(position, Direction::Horizontal);
    assert!(actual.is_some());
    assert_eq!("hello", actual.unwrap());
}

#[test]
fn board_test_preceding_vertical() {
    let mut board = ScrabbleBoard::default();
    board.add_play(&hello_play(Direction::Vertical));
    let position = Position { row: 12, col: 7 };
    let actual = board.preceding(position, Direction::Vertical);
    assert!(actual.is_some());
    assert_eq!("hello", actual.unwrap());
}

#[test]
fn board_test_following_horizontal() {
    let mut board = ScrabbleBoard::default();
    board.add_play(&hello_play(Direction::Horizontal));
    let position = Position { row: 7, col: 6 };
    let actual = board.following(position, Direction::Horizontal);
    assert!(actual.is_some());
    assert_eq!("hello", actual.unwrap());
}

#[test]
fn board_test_following_vertical() {
    let mut board = ScrabbleBoard::default();
    board.add_play(&hello_play(Direction::Vertical));
    let position = Position { row: 6, col: 7 };
    let actual = board.following(position, Direction::Vertical);
    assert!(actual.is_some());
    assert_eq!("hello", actual.unwrap());
}

#[test]
fn scrabble_board_test_preceding_horizontal() {
    let mut board = ScrabbleBoard::default();
    let word = "hello";
    let start = Position { row: 7, col: 7 };
    board.add_word(word, start, Direction::Horizontal);
    let expected = word;
    let position = Position { row: 7, col: 12 };
    let actual = board.preceding(position, Direction::Horizontal);
    assert!(actual.is_some());
    assert_eq!(expected, actual.unwrap());
}

#[test]
fn scrabble_board_test_preceding_vertical() {
    let mut board = ScrabbleBoard::default();
    let word = "hello";
    let start = Position { row: 7, col: 7 };
    board.add_word(word, start, Direction::Vertical);
    let expected = word;
    let position = Position { row: 12, col: 7 };
    let actual = board.preceding(position, Direction::Vertical);
    assert!(actual.is_some());
    assert_eq!(expected, actual.unwrap());
}

#[test]
fn scrabble_board_test_following_horizontal() {
    let mut board = ScrabbleBoard::default();
    let word = "hello";
    let start = Position { row: 7, col: 7 };
    board.add_word(word, start, Direction::Horizontal);
    let expected = word;
    let position = Position { row: 7, col: 6 };
    let actual = board.following(position, Direction::Horizontal);
    assert!(actual.is_some());
    assert_eq!(expected, actual.unwrap());
}

#[test]
fn scrabble_board_test_following_vertical() {
    let mut board = ScrabbleBoard::default();
    let word = "hello";
    let start = Position { row: 7, col: 7 };
    board.add_word(word, start, Direction::Vertical);
    let expected = word;
    let position = Position { row: 6, col: 7 };
    let actual = board.following(position, Direction::Vertical);
    assert!(actual.is_some());
    assert_eq!(expected, actual.unwrap());
}

#[test]
fn preceding_and_following_stop_at_empty_squares() {
    let mut board = ScrabbleBoard::default();
    board.add_word("hello", Position { row: 7, col: 7 }, Direction::Horizontal);
    assert!(board.preceding(Position { row: 7, col: 7 }, Direction::Horizontal).is_none());
    assert!(board.following(Position { row: 7, col: 12 }, Direction::Horizontal).is_none());
    assert_eq!(board.preceding(Position { row: 7, col: 10 }, Direction::Horizontal).unwrap(), "hel");
    assert!(board.preceding(Position { row: 8, col: 8 }, Direction::Vertical).is_some());
    assert!(board.preceding(Position { row: 0, col: 0 }, Direction::Vertical).is_none());
}

#[test]
fn contents_round_trip_through_the_text_form() {
    let mut board = ScrabbleBoard::default();
    board.add_word("hello", Position { row: 7, col: 7 }, Direction::Vertical);
    let contents = board.contents();
    assert_eq!(contents.len(), 225);
    let parsed = board_from_contents(&contents).unwrap();
    assert_eq!(parsed.squares, board.squares);
    let mut with_newlines = String::new();
    for (i, ch) in contents.chars().enumerate() {
        with_newlines.push(ch);
        if i % 15 == 14 {
            with_newlines.push('\n');
        }
    }
    let parsed = ScrabbleBoard::from_contents(&with_newlines).unwrap();
    assert_eq!(parsed.squares, board.squares);
}

#[test]
fn invalid_board_content_is_rejected() {
    let mut text = " ".repeat(224);
    text.push('A');
    assert!(matches!(board_from_contents(&text), Err(ScrabbleError::InvalidBoardContent)));
    let short = " ".repeat(224);
    assert!(matches!(board_from_contents(&short), Err(ScrabbleError::InvalidBoardContent)));
    let mut blank = " ".repeat(224);
    blank.push('_');
    assert!(matches!(board_from_contents(&blank), Err(ScrabbleError::InvalidBoardContent)));
}

#[test]
fn transposed_swaps_rows_and_columns() {
    let mut board = ScrabbleBoard::default();
    board.add_word("hello", Position { row: 2, col: 3 }, Direction::Horizontal);
    let transposed = board.transposed();
    assert_eq!(transposed.get(Position { row: 3, col: 2 }), Some('h'));
    assert_eq!(transposed.get(Position { row: 7, col: 2 }), Some('o'));
    assert_eq!(transposed.get(Position { row: 2, col: 3 }), None);
}

#[test]
fn positions_follow_their_axis() {
    let p = Position::from_aisle_cross(Direction::Vertical, 3, 9);
    assert_eq!(p, Position { row: 9, col: 3 });
    assert_eq!(p.aisle(Direction::Vertical), 3);
    assert_eq!(p.cross(Direction::Horizontal), 3);
    assert_eq!(p.step(Direction::Vertical), Position { row: 10, col: 3 });
    assert_eq!(p.step_multi(Direction::Vertical, -4), Position { row: 5, col: 3 });
    assert_eq!(p.step_multi(Direction::Horizontal, 2), Position { row: 9, col: 5 });
    let mut q = p;
    q.set_cross(Direction::Horizontal, 11);
    q.set_aisle(Direction::Horizontal, 1);
    assert_eq!(q, Position { row: 1, col: 11 });
}
