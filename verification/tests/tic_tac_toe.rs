use mocats::game::GameState;
use mocats::tic_tac_toe::{unpack, TicTacToeMove, TicTacToePlayer, TicTacToePosition};

fn position(board_x: u16, board_o: u16, turn: TicTacToePlayer) -> TicTacToePosition {
    TicTacToePosition { board_x, board_o, turn }
}

#[test]
fn unpack_lists_the_set_bits_lowest_first() {
    assert_eq!(unpack(0), Vec::<u16>::new());
    assert_eq!(unpack(1), vec![1]);
    assert_eq!(unpack(0b101001010), vec![2, 8, 64, 256]);
    assert_eq!(unpack(0x8001), vec![1, 0x8000]);
    assert_eq!(unpack(0xffff).len(), 16);
}

#[test]
fn new_position_is_empty_with_x_to_move() {
    let game = TicTacToePosition::new();
    assert_eq!(game.board_x, 0);
    assert_eq!(game.board_o, 0);
    assert_eq!(game.turn, TicTacToePlayer::X);
    assert_eq!(game.get_moves_mask(), 0b111111111);
    assert_eq!(game.get_moves(), vec![1, 2, 4, 8, 16, 32, 64, 128, 256]);
    assert!(!game.is_board_full());
    assert_eq!(game.get_winner(), None);
    assert_eq!(game.get_turn(), TicTacToePlayer::X);
    assert_eq!(game.get_reward_for_player(TicTacToePlayer::X), 0);
}

#[test]
fn other_player_is_the_opponent() {
    assert_eq!(TicTacToePlayer::X.other(), TicTacToePlayer::O);
    assert_eq!(TicTacToePlayer::O.other(), TicTacToePlayer::X);
}

#[test]
fn moves_alternate_between_the_players() {
    let mut game = TicTacToePosition::new();
    game.make_move(16);
    assert_eq!(game, position(16, 0, TicTacToePlayer::O));
    game.make_move(1);
    assert_eq!(game, position(16, 1, TicTacToePlayer::X));
    assert_eq!(game.get_moves_mask(), 0b111101110);
    assert_eq!(game.get_moves(), vec![2, 4, 8, 32, 64, 128, 256]);
    let actions: Vec<u16> = game.get_actions().iter().map(|a| a.pos).collect();
    assert_eq!(actions, game.get_moves());
    game.apply_action(&TicTacToeMove { pos: 256 });
    assert_eq!(game, position(16 | 256, 1, TicTacToePlayer::O));
}

#[test]
fn every_line_wins() {
    let lines = [
        0b111000000u16,
        0b000111000,
        0b000000111,
        0b100100100,
        0b010010010,
        0b001001001,
        0b100010001,
        0b001010100,
    ];
    for line in lines {
        let x_wins = position(line, 0, TicTacToePlayer::O);
        assert_eq!(x_wins.get_winner(), Some(TicTacToePlayer::X));
        assert_eq!(x_wins.get_moves(), Vec::<u16>::new());
        assert!(x_wins.get_actions().is_empty());
        assert_eq!(x_wins.get_reward_for_player(TicTacToePlayer::X), 1);
        assert_eq!(x_wins.get_reward_for_player(TicTacToePlayer::O), -1);
        let o_wins = position(0, line, TicTacToePlayer::X);
        assert_eq!(o_wins.get_winner(), Some(TicTacToePlayer::O));
        assert_eq!(o_wins.get_reward_for_player(TicTacToePlayer::X), -1);
        assert_eq!(o_wins.get_reward_for_player(TicTacToePlayer::O), 1);
    }
    assert_eq!(position(0b000000011, 0b000011000, TicTacToePlayer::X).get_winner(), None);
}

#[test]
fn the_first_complete_line_decides() {
    // Both players hold a row; the top row is asked first.
    assert_eq!(position(0b000000111, 0b111000000, TicTacToePlayer::X).get_winner(), Some(TicTacToePlayer::O));
    assert_eq!(position(0b111000000, 0b000000111, TicTacToePlayer::X).get_winner(), Some(TicTacToePlayer::X));
    // Within one line X is asked first.
    assert_eq!(position(0b111000000, 0b111000000, TicTacToePlayer::X).get_winner(), Some(TicTacToePlayer::X));
}

#[test]
fn full_board_without_a_line_is_a_draw() {
    // X O X / X O O / O X X
    let game = position(0b110001101, 0b001110010, TicTacToePlayer::O);
    assert!(game.is_board_full());
    assert_eq!(game.get_moves_mask(), 0);
    assert_eq!(game.get_winner(), None);
    assert_eq!(game.get_moves(), Vec::<u16>::new());
    assert_eq!(game.get_reward_for_player(TicTacToePlayer::X), 0);
    assert_eq!(game.get_reward_for_player(TicTacToePlayer::O), 0);
}

#[test]
fn board_text_marks_the_squares() {
    assert_eq!(mocats::tic_tac_toe::board_text(0, 'X'), "...\n...\n...\n");
    assert_eq!(mocats::tic_tac_toe::board_text(0b100010001, 'X'), "X..\n.X.\n..X\n");
    assert_eq!(mocats::tic_tac_toe::board_text(0b000000110, 'O'), ".OO\n...\n...\n");
    assert_eq!(mocats::tic_tac_toe::board_text(0b111111111, '#'), "###\n###\n###\n");
    // Bits above the ninth square are not on the board.
    assert_eq!(mocats::tic_tac_toe::board_text(0b1000000000, 'X'), "...\n...\n...\n");
}

#[test]
fn move_text_shows_the_square() {
    assert_eq!(TicTacToeMove { pos: 16 }.to_text(), "...\n.?.\n...\n");
    assert_eq!(TicTacToeMove { pos: 256 }.to_text(), "...\n...\n..?\n");
}

#[test]
fn player_text_is_the_letter() {
    assert_eq!(TicTacToePlayer::X.to_text(), "X");
    assert_eq!(TicTacToePlayer::O.to_text(), "O");
}

#[test]
fn position_text_shows_board_and_status() {
    assert_eq!(TicTacToePosition::new().to_text(), "...\n...\n...\nTurn: X\n");
    assert_eq!(position(16, 1, TicTacToePlayer::X).to_text(), "O..\n.X.\n...\nTurn: X\n");
    assert_eq!(position(16, 0, TicTacToePlayer::O).to_text(), "...\n.X.\n...\nTurn: O\n");
    assert_eq!(position(0b000000111, 0b000011000, TicTacToePlayer::O).to_text(), "XXX\nOO.\n...\nWinner: X\n");
    assert_eq!(position(0b000000011, 0b000111000, TicTacToePlayer::X).to_text(), "XX.\nOOO\n...\nWinner: O\n");
    assert_eq!(
        position(0b110001101, 0b001110010, TicTacToePlayer::O).to_text(),
        "XOX\nXOO\nOXX\nDraw\n"
    );
    // Where both boards hold a square, X is shown.
    assert_eq!(position(1, 1, TicTacToePlayer::X).to_text(), "X..\n...\n...\nTurn: X\n");
}
