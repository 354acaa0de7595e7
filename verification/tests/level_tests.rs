use minesweeper::level::{LevelPreset, board_size_from_str};

#[test]
fn presets_carry_their_dimensions_and_mines() {
    assert_eq!(LevelPreset::Beginner.board_size(), (9, 9));
    assert_eq!(LevelPreset::Intermediate.board_size(), (16, 16));
    assert_eq!(LevelPreset::Advanced.board_size(), (24, 24));
    assert_eq!(LevelPreset::Beginner.num_mines(), 10);
    assert_eq!(LevelPreset::Intermediate.num_mines(), 40);
    assert_eq!(LevelPreset::Advanced.num_mines(), 99);
    assert_eq!(LevelPreset::default(), LevelPreset::Beginner);
}

#[test]
fn level_from_str_accepts_numbers_and_names() {
    assert_eq!(LevelPreset::from_str("1").unwrap(), LevelPreset::Beginner);
    assert_eq!(LevelPreset::from_str("beginner").unwrap(), LevelPreset::Beginner);
    assert_eq!(LevelPreset::from_str("BEGINNER").unwrap(), LevelPreset::Beginner);
    assert_eq!(LevelPreset::from_str("2").unwrap(), LevelPreset::Intermediate);
    assert_eq!(LevelPreset::from_str("Intermediate").unwrap(), LevelPreset::Intermediate);
    assert_eq!(LevelPreset::from_str("3").unwrap(), LevelPreset::Advanced);
    assert_eq!(LevelPreset::from_str("aDvAnCeD").unwrap(), LevelPreset::Advanced);
}

#[test]
fn level_from_str_rejects_everything_else() {
    let err = LevelPreset::from_str("4").unwrap_err();
    assert_eq!(err, "level must be one of 1,2,3,beginner,intermediate,advanced");
    assert!(LevelPreset::from_str("").is_err());
    assert!(LevelPreset::from_str("beginners").is_err());
}

#[test]
fn board_size_parses_pairs() {
    assert_eq!(board_size_from_str("16,24").unwrap(), (16, 24));
    assert_eq!(board_size_from_str("+5,+6").unwrap(), (5, 6));
    assert_eq!(board_size_from_str("4294967295,1").unwrap(), (u32::MAX, 1));
}

#[test]
fn board_size_defaults_a_missing_height() {
    assert_eq!(board_size_from_str("16").unwrap(), (16, 9));
}

#[test]
fn board_size_ignores_text_after_the_second_comma() {
    assert_eq!(board_size_from_str("7,8,whatever").unwrap(), (7, 8));
}

#[test]
fn board_size_rejects_bad_text() {
    assert!(board_size_from_str("").is_err());
    assert!(board_size_from_str("a,2").is_err());
    assert!(board_size_from_str("2,b").is_err());
    assert!(board_size_from_str("16,").is_err());
    assert!(board_size_from_str(",16").is_err());
    assert!(board_size_from_str("4294967296,1").is_err());
    let err = board_size_from_str("x").unwrap_err();
    assert_eq!(err, "board size must be numbers in the form W,H");
}
