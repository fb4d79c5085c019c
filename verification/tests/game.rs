use othello::board::{Board, Disk};
use othello::game::{square_of, OthelloApp, THINKING_TIME};
use othello::search::Greedy;

fn rows(lines: &[&str]) -> Vec<String> {
    lines.iter().map(|line| line.to_string()).collect()
}

fn game(lines: &[&str], player: i32) -> OthelloApp {
    OthelloApp { board: Board::from_strings(rows(lines), player) }
}

const START: [&str; 8] = [
    "........", "........", "........", "...10...", "...01...", "........", "........",
    "........",
];

/// Black can move nowhere; white can take the black disk.
const STUCK: [&str; 8] = [
    "10......", "........", "........", "........", "........", "........", "........",
    "........",
];

/// White can move nowhere; black can take the white disk.
const WHITE_STUCK: [&str; 8] = [
    "01......", "........", "........", "........", "........", "........", "........",
    "........",
];

#[test]
fn square_of_names_column_and_row() {
    assert_eq!(square_of(0x8000_0000_0000_0000), (0, 0));
    assert_eq!(square_of(1), (7, 7));
    assert_eq!(square_of(1 << 37), (2, 3));
    assert_eq!(square_of(1 << 44), (3, 2));
    assert_eq!(square_of(1 << 56), (7, 0));
    assert_eq!(square_of(1 << 7), (0, 7));
}

#[test]
fn square_of_takes_the_first_square_of_several() {
    assert_eq!(square_of(0), (0, 0));
    assert_eq!(square_of((1 << 37) | (1 << 19) | 1), (2, 3));
    assert_eq!(square_of(u64::MAX), (0, 0));
}

#[test]
fn the_game_starts_with_black_to_move() {
    let game = OthelloApp::default();
    assert!(game.is_sound());
    assert_eq!(game.board.player, 0);
    assert_eq!(game.board.to_strings(), rows(&START));
    assert_eq!(THINKING_TIME, 1000);
}

#[test]
fn a_game_on_another_board_is_not_sound() {
    assert!(!OthelloApp { board: Board::new(4, 4, 0) }.is_sound());
    assert!(!OthelloApp { board: Board::new(8, 8, 2) }.is_sound());
    assert!(OthelloApp { board: Board::new(8, 8, 1) }.is_sound());
}

#[test]
fn a_click_on_a_legal_square_is_played() {
    let mut game = OthelloApp::default();
    assert!(game.click(2, 3));
    assert_eq!(game.board.player, 1);
    assert_eq!(game.board.disks[3][2], Disk::Black);
    assert_eq!(game.board.disks[3][3], Disk::Black);
    assert_eq!(game.board.num_disk(), (4, 1));
}

#[test]
fn a_click_elsewhere_changes_nothing() {
    let mut game = OthelloApp::default();
    assert!(!game.click(0, 0));
    assert!(!game.click(3, 3));
    assert!(!game.click(4, 2));
    assert!(!game.click(8, 3));
    assert!(!game.click(3, 100));
    assert_eq!(game.board.player, 0);
    assert_eq!(game.board.to_strings(), rows(&START));
}

#[test]
fn reset_starts_anew() {
    let mut game = OthelloApp::default();
    game.click(2, 3);
    game.reset();
    assert_eq!(game.board.player, 0);
    assert_eq!(game.board.to_strings(), rows(&START));
}

#[test]
fn a_side_without_a_legal_square_passes() {
    let mut game = game(&STUCK, 0);
    assert!(game.pass_if_stuck());
    assert_eq!(game.board.player, 1);
    assert_eq!(game.board.to_strings(), rows(&STUCK));
    assert!(!game.pass_if_stuck());
    assert_eq!(game.board.player, 1);
    let mut start = OthelloApp::default();
    assert!(!start.pass_if_stuck());
    assert_eq!(start.board.player, 0);
}

#[test]
fn position_reads_the_board_into_masks() {
    let position = OthelloApp::default().position();
    assert_eq!(position.black, 0x0000_0008_1000_0000);
    assert_eq!(position.white, 0x0000_0010_0800_0000);
    assert_eq!(position.player, 0);
    assert_eq!(game(&STUCK, 1).position().player, 1);
}

#[test]
fn the_search_plays_its_only_move() {
    let mut game = game(&STUCK, 1);
    let rounds = game.play_ai(Greedy);
    assert!(rounds.unwrap() >= 50);
    assert_eq!(game.board.player, 0);
    assert_eq!(
        game.board.to_strings(),
        rows(&[
            "111.....", "........", "........", "........", "........", "........", "........",
            "........",
        ])
    );
}

#[test]
fn the_search_does_not_move_without_a_legal_square() {
    let mut game = game(&WHITE_STUCK, 1);
    assert_eq!(game.play_ai(Greedy), None);
    assert_eq!(game.board.player, 1);
    assert_eq!(game.board.to_strings(), rows(&WHITE_STUCK));
}

#[test]
fn the_search_plays_a_legal_move_at_the_start() {
    let mut game = OthelloApp { board: Board::from_strings(rows(&START), 1) };
    let legal = game.board.legal_moves();
    let before = game.board.duplicate();
    assert!(game.play_ai(Greedy).is_some());
    assert_eq!(game.board.player, 0);
    assert_eq!(game.board.num_disk(), (1, 4));
    let played: Vec<(usize, usize)> = legal
        .into_iter()
        .filter(|&(x, y)| before.play(x, y).to_strings() == game.board.to_strings())
        .collect();
    assert_eq!(played.len(), 1);
}

#[test]
fn the_turn_of_the_search_waits_for_black() {
    let mut game = OthelloApp::default();
    assert_eq!(game.ai_turn(Greedy), (false, None));
    assert_eq!(game.board.player, 0);
    assert_eq!(game.board.to_strings(), rows(&START));
}

#[test]
fn the_turn_of_the_search_passes_when_white_is_stuck() {
    let mut game = game(&WHITE_STUCK, 1);
    assert_eq!(game.ai_turn(Greedy), (false, None));
    assert_eq!(game.board.player, 0);
    assert_eq!(game.board.to_strings(), rows(&WHITE_STUCK));
}

#[test]
fn the_turn_of_the_search_comes_again_when_black_is_stuck() {
    // White has two moves. After the one in the top row black cannot move and
    // white is to move again; after the other black can move.
    let mut game = game(
        &[
            "10......", "........", "........", "........", "........", "........", "......01",
            "......0.",
        ],
        1,
    );
    let (again, rounds) = game.ai_turn(Greedy);
    assert!(rounds.unwrap() >= 50);
    assert_eq!(game.board.num_disk().0 + game.board.num_disk().1, 6);
    assert_eq!(again, game.board.player == 1);
}

#[test]
fn the_turn_of_the_search_ends_with_the_move_back_at_black() {
    let mut game = OthelloApp { board: Board::from_strings(rows(&START), 1) };
    let (again, rounds) = game.ai_turn(Greedy);
    assert!(!again);
    assert!(rounds.is_some());
    assert_eq!(game.board.player, 0);
    assert_eq!(game.board.num_disk(), (1, 4));
}
