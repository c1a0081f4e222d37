//! Tic-tac-toe on two bit boards, as a game for the engine to search.

use crate::game::{GameAction, GameState, Player};
use crate::text::push_char;
use vstd::prelude::*;
use vstd::std_specs::cmp::PartialEqSpecImpl;

verus! {

/// A move: the bit of the square to take.
#[derive(Debug, Clone, Copy)]
pub struct TicTacToeMove {
    pub pos: u16,
}

impl PartialEq for TicTacToeMove {
    fn eq(&self, other: &Self) -> (equal: bool) {
        self.pos == other.pos
    }
}

impl PartialEqSpecImpl for TicTacToeMove {
    open spec fn obeys_eq_spec() -> bool {
        true
    }

    open spec fn eq_spec(&self, other: &Self) -> bool {
        self.pos == other.pos
    }
}

impl GameAction for TicTacToeMove {
    proof fn lemma_eq_is_equality(a: Self, b: Self) {
    }
}

/// The two players.
#[derive(Debug, Clone, Copy, Hash)]
pub enum TicTacToePlayer {
    X,
    O,
}

impl PartialEq for TicTacToePlayer {
    fn eq(&self, other: &Self) -> (equal: bool) {
        match (self, other) {
            (TicTacToePlayer::X, TicTacToePlayer::X) => true,
            (TicTacToePlayer::O, TicTacToePlayer::O) => true,
            _ => false,
        }
    }
}

impl Eq for TicTacToePlayer {

}

impl PartialEqSpecImpl for TicTacToePlayer {
    open spec fn obeys_eq_spec() -> bool {
        true
    }

    open spec fn eq_spec(&self, other: &Self) -> bool {
        *self == *other
    }
}

impl Player for TicTacToePlayer {
    proof fn lemma_eq_is_equality(a: Self, b: Self) {
    }
}

impl TicTacToePlayer {
    /// The opponent.
    pub fn other(&self) -> (opponent: TicTacToePlayer)
        ensures
            opponent != *self,
    {
        match self {
            TicTacToePlayer::X => TicTacToePlayer::O,
            TicTacToePlayer::O => TicTacToePlayer::X,
        }
    }
}

/// The nine squares.
pub const BOARD_MASK: u16 = 0b111111111;

/// The eight lines that win: three rows, three columns, two diagonals.
pub const WIN_MASKS: [u16; 8] = [
    0b111000000,
    0b000111000,
    0b000000111,
    0b100100100,
    0b010010010,
    0b001001001,
    0b100010001,
    0b001010100,
];

/// The set bits of `board` below bit `k`, lowest first.
pub open spec fn bits_below(board: u16, k: nat) -> Seq<u16>
    decreases k,
{
    if k == 0 {
        Seq::empty()
    } else {
        let rest = bits_below(board, (k - 1) as nat);
        let bit = 1u16 << ((k - 1) as u16);
        if board & bit != 0 {
            rest.push(bit)
        } else {
            rest
        }
    }
}

/// The set bits of `board`, lowest first.
pub open spec fn set_bits(board: u16) -> Seq<u16> {
    bits_below(board, 16)
}

/// The lowest set bit of `board`, which is not zero.
pub open spec fn lowest_bit(board: u16) -> u16 {
    board & ((!board + 1) as u16)
}

/// Zero has no set bits.
proof fn lemma_no_bits(k: nat)
    requires
        k <= 16,
    ensures
        bits_below(0, k) == Seq::<u16>::empty(),
    decreases k,
{
    if k > 0 {
        lemma_no_bits((k - 1) as nat);
        let j = (k - 1) as u16;
        assert(0u16 & (1u16 << j) == 0) by (bit_vector);
    }
}

/// Below bit `k`, the set bits of a board are its lowest set bit, if that
/// is below `k`, followed by the set bits of the rest.
proof fn lemma_lowest_bit_split(board: u16, k: nat)
    requires
        board != 0,
        k <= 16,
    ensures
        (lowest_bit(board) as u32) < (1u32 << (k as u32)) ==> bits_below(board, k) == seq![
            lowest_bit(board),
        ] + bits_below(board ^ lowest_bit(board), k),
        (lowest_bit(board) as u32) >= (1u32 << (k as u32)) ==> bits_below(board, k) == Seq::<
            u16,
        >::empty() && bits_below(board ^ lowest_bit(board), k) == Seq::<u16>::empty(),
    decreases k,
{
    let low = lowest_bit(board);
    if k == 0 {
        assert(1u32 << 0u32 == 1) by (bit_vector);
        assert(low != 0) by (bit_vector)
            requires
                board != 0,
                low == board & ((!board + 1) as u16),
        ;
    } else {
        lemma_lowest_bit_split(board, (k - 1) as nat);
        let j = (k - 1) as u16;
        let wide = k as u32;
        let below = (k - 1) as u32;
        let bit = 1u16 << j;
        assert(below == j && wide == j + 1);
        assert((low as u32) >= (1u32 << wide) ==> board & bit == 0 && (board ^ low) & bit == 0)
            by (bit_vector)
            requires
                board != 0,
                low == board & ((!board + 1) as u16),
                j < 16,
                bit == 1u16 << j,
                wide == j + 1,
        ;
        assert((low as u32) < (1u32 << wide) && (low as u32) >= (1u32 << below) ==> bit == low && board
            & bit != 0 && (board ^ low) & bit == 0) by (bit_vector)
            requires
                board != 0,
                low == board & ((!board + 1) as u16),
                j < 16,
                bit == 1u16 << j,
                wide == j + 1,
                below == j,
        ;
        assert((low as u32) < (1u32 << below) ==> ((board & bit != 0) == ((board ^ low) & bit != 0))
            && (low as u32) < (1u32 << wide)) by (bit_vector)
            requires
                board != 0,
                low == board & ((!board + 1) as u16),
                j < 16,
                bit == 1u16 << j,
                wide == j + 1,
                below == j,
        ;
        if (low as u32) < (1u32 << wide) {
            if (low as u32) >= (1u32 << below) {
                assert(bits_below(board, k) =~= seq![low] + bits_below(board ^ low, k));
            } else {
                assert(bits_below(board, k) =~= seq![low] + bits_below(board ^ low, k));
            }
        }
    }
}

/// Every entry of the set bits below `k` is one bit of the board, below
/// bit `k`.
proof fn lemma_bits_are_bits(board: u16, k: nat, i: int)
    requires
        k <= 16,
        0 <= i < bits_below(board, k).len(),
    ensures
        bits_below(board, k)[i] != 0,
        bits_below(board, k)[i] & board == bits_below(board, k)[i],
        (bits_below(board, k)[i] as u32) < (1u32 << (k as u32)),
    decreases k,
{
    if k > 0 {
        let rest = bits_below(board, (k - 1) as nat);
        let j = (k - 1) as u16;
        let wide = k as u32;
        let bit = 1u16 << j;
        if i < rest.len() {
            lemma_bits_are_bits(board, (k - 1) as nat, i);
            let e = rest[i];
            assert((e as u32) < (1u32 << (j as u32)) ==> (e as u32) < (1u32 << wide)) by (bit_vector)
                requires
                    j < 16,
                    wide == j + 1,
            ;
        } else {
            assert(board & bit != 0 ==> bit != 0 && bit & board == bit && (bit as u32) < (1u32 << wide))
                by (bit_vector)
                requires
                    j < 16,
                    bit == 1u16 << j,
                    wide == j + 1,
            ;
        }
    }
}

/// No bit occurs twice among the set bits.
proof fn lemma_bits_distinct(board: u16, k: nat)
    requires
        k <= 16,
    ensures
        bits_below(board, k).no_duplicates(),
    decreases k,
{
    if k > 0 {
        lemma_bits_distinct(board, (k - 1) as nat);
        let rest = bits_below(board, (k - 1) as nat);
        let j = (k - 1) as u16;
        let bit = 1u16 << j;
        assert forall|i: int| 0 <= i < rest.len() implies rest[i] != bit by {
            lemma_bits_are_bits(board, (k - 1) as nat, i);
            let e = rest[i];
            assert((e as u32) < (1u32 << (j as u32)) ==> e != bit) by (bit_vector)
                requires
                    j < 16,
                    bit == 1u16 << j,
            ;
        }
    }
}

/// The set bits of the board, lowest first.
pub fn unpack(board: u16) -> (bits: Vec<u16>)
    ensures
        bits@ == set_bits(board),
{
    let ghost whole = board;
    let mut board = board;
    let mut res: Vec<u16> = Vec::new();
    while board != 0
        invariant
            res@ + set_bits(board) == set_bits(whole),
        decreases board,
    {
        assert(!board < 0xffff) by (bit_vector)
            requires
                board != 0,
        ;
        let lsb = board & (!board + 1);
        proof {
            lemma_lowest_bit_split(board, 16);
            assert(1u32 << 16u32 == 0x10000) by (bit_vector);
            assert(res@.push(lsb) + set_bits(board ^ lsb) =~= res@ + (seq![lsb] + set_bits(board ^ lsb)));
            assert(board ^ lsb < board) by (bit_vector)
                requires
                    board != 0,
                    lsb == board & ((!board + 1) as u16),
            ;
        }
        res.push(lsb);
        board ^= lsb;
    }
    proof {
        lemma_no_bits(16);
    }
    res
}

/// A position: the squares of each player and the player to move.
#[derive(Debug, Clone, Copy, Eq, PartialEq, Hash)]
pub struct TicTacToePosition {
    pub board_x: u16,
    pub board_o: u16,
    pub turn: TicTacToePlayer,
}

/// Whether `board` holds all three squares of `line`.
pub open spec fn completes(board: u16, line: u16) -> bool {
    board & line == line
}

impl TicTacToePosition {
    /// The free squares.
    pub open spec fn free(&self) -> u16 {
        !(self.board_x | self.board_o) & BOARD_MASK
    }

    /// Whether every square is taken.
    pub open spec fn full(&self) -> bool {
        self.board_x | self.board_o == BOARD_MASK
    }

    /// The winner as far as the first `n` lines tell: the first of them
    /// that a player completes decides, and X is asked first.
    pub open spec fn winner_among(&self, n: nat) -> Option<TicTacToePlayer>
        decreases n,
    {
        if n == 0 {
            None
        } else {
            match self.winner_among((n - 1) as nat) {
                Some(player) => Some(player),
                None => if completes(self.board_x, WIN_MASKS[n - 1]) {
                    Some(TicTacToePlayer::X)
                } else if completes(self.board_o, WIN_MASKS[n - 1]) {
                    Some(TicTacToePlayer::O)
                } else {
                    None
                },
            }
        }
    }

    /// The winner, if a line is complete.
    pub open spec fn winner(&self) -> Option<TicTacToePlayer> {
        self.winner_among(8)
    }

    /// The squares that can be taken: none once the game is over, else the
    /// free ones, lowest bit first.
    pub open spec fn moves(&self) -> Seq<u16> {
        if self.full() || self.winner() is Some {
            Seq::empty()
        } else {
            set_bits(self.free())
        }
    }

    /// The position after the player to move takes the squares `pos`.
    pub open spec fn moved(&self, pos: u16) -> TicTacToePosition {
        match self.turn {
            TicTacToePlayer::X => TicTacToePosition {
                board_x: self.board_x | pos,
                board_o: self.board_o,
                turn: TicTacToePlayer::O,
            },
            TicTacToePlayer::O => TicTacToePosition {
                board_x: self.board_x,
                board_o: self.board_o | pos,
                turn: TicTacToePlayer::X,
            },
        }
    }

    /// The empty board, with X to move.
    pub fn new() -> (position: TicTacToePosition)
        ensures
            position == (TicTacToePosition { board_x: 0, board_o: 0, turn: TicTacToePlayer::X }),
    {
        TicTacToePosition { board_x: 0, board_o: 0, turn: TicTacToePlayer::X }
    }

    /// The free squares as a bit board.
    pub fn get_moves_mask(&self) -> (mask: u16)
        ensures
            mask == self.free(),
    {
        !(self.board_x | self.board_o) & BOARD_MASK
    }

    /// The squares that can be taken, each as its bit.
    pub fn get_moves(&self) -> (moves: Vec<u16>)
        ensures
            moves@ == self.moves(),
    {
        if self.is_board_full() || self.get_winner().is_some() {
            return Vec::new();
        }
        unpack(self.get_moves_mask())
    }

    /// Gives the squares `pos` to the player to move and passes the turn.
    pub fn make_move(&mut self, pos: u16)
        ensures
            *final(self) == old(self).moved(pos),
    {
        match self.turn {
            TicTacToePlayer::X => self.board_x |= pos,
            TicTacToePlayer::O => self.board_o |= pos,
        }
        self.turn = self.turn.other();
    }

    /// Whether every square is taken.
    pub fn is_board_full(&self) -> (full: bool)
        ensures
            full == self.full(),
    {
        self.board_x | self.board_o == BOARD_MASK
    }

    /// The player who completed a line, if any.
    pub fn get_winner(&self) -> (winner: Option<TicTacToePlayer>)
        ensures
            winner == self.winner(),
    {
        let mut i: usize = 0;
        while i < 8
            invariant
                i <= 8,
                self.winner_among(i as nat) is None,
            decreases 8 - i,
        {
            let mask = WIN_MASKS[i];
            if self.board_x & mask == mask {
                proof {
                    self.lemma_winner_settled(i as nat + 1, 8);
                }
                return Some(TicTacToePlayer::X);
            }
            if self.board_o & mask == mask {
                proof {
                    self.lemma_winner_settled(i as nat + 1, 8);
                }
                return Some(TicTacToePlayer::O);
            }
            i += 1;
        }
        None
    }

    /// Once a line has decided, further lines change nothing.
    proof fn lemma_winner_settled(&self, n: nat, m: nat)
        requires
            n <= m,
            self.winner_among(n) is Some,
        ensures
            self.winner_among(m) == self.winner_among(n),
        decreases m,
    {
        if n < m {
            self.lemma_winner_settled(n, (m - 1) as nat);
        }
    }
}

impl GameState<TicTacToeMove, TicTacToePlayer> for TicTacToePosition {
    open spec fn legal_actions(&self) -> Seq<TicTacToeMove> {
        self.moves().map_values(|pos: u16| TicTacToeMove { pos })
    }

    open spec fn successor(&self, action: TicTacToeMove) -> TicTacToePosition {
        self.moved(action.pos)
    }

    open spec fn turn(&self) -> TicTacToePlayer {
        self.turn
    }

    /// One for the winner, minus one for the loser, zero while nobody has
    /// won.
    open spec fn reward(&self, player: TicTacToePlayer) -> int {
        match self.winner() {
            Some(winner) => if winner == player {
                1
            } else {
                -1
            },
            None => 0,
        }
    }

    /// The free squares, read as a number: every move clears a bit of it.
    open spec fn plies_left(&self) -> nat {
        self.free() as nat
    }

    proof fn lemma_actions_distinct(&self) {
        lemma_bits_distinct(self.free(), 16);
        let actions = self.legal_actions();
        assert forall|i: int, j: int| 0 <= i < actions.len() && 0 <= j < actions.len() && i != j implies actions[i]
            != actions[j] by {
            assert(self.moves()[i] != self.moves()[j]);
        }
    }

    proof fn lemma_successor_closer(&self, action: TicTacToeMove) {
        let actions = self.legal_actions();
        let i = choose|i: int| 0 <= i < actions.len() && actions[i] == action;
        assert(self.moves()[i] == action.pos);
        lemma_bits_are_bits(self.free(), 16, i);
        let x = self.board_x;
        let o = self.board_o;
        let pos = action.pos;
        assert(pos != 0 && pos & (!(x | o) & 0b111111111) == pos ==> (!((x | pos) | o) & 0b111111111) < (
        !(x | o) & 0b111111111) && (!(x | (o | pos)) & 0b111111111) < (!(x | o) & 0b111111111))
            by (bit_vector);
    }

    proof fn lemma_reward_bounded(&self, player: TicTacToePlayer) {
    }

    proof fn lemma_clone_is_copy(&self, copy: &Self) {
    }

    fn get_actions(&self) -> (actions: Vec<TicTacToeMove>) {
        let moves = self.get_moves();
        let mut actions: Vec<TicTacToeMove> = Vec::new();
        let mut i: usize = 0;
        while i < moves.len()
            invariant
                i <= moves.len(),
                actions@ == moves@.take(i as int).map_values(|pos: u16| TicTacToeMove { pos }),
            decreases moves.len() - i,
        {
            actions.push(TicTacToeMove { pos: moves[i] });
            proof {
                assert(actions@ =~= moves@.take(i + 1).map_values(|pos: u16| TicTacToeMove { pos }));
            }
            i += 1;
        }
        proof {
            assert(moves@.take(moves.len() as int) =~= moves@);
        }
        actions
    }

    fn apply_action(&mut self, action: &TicTacToeMove) {
        self.make_move(action.pos);
    }

    fn get_turn(&self) -> (player: TicTacToePlayer) {
        self.turn
    }

    fn get_reward_for_player(&self, player: TicTacToePlayer) -> (reward: i32) {
        match self.get_winner() {
            Some(winner) => {
                if winner == player {
                    1
                } else {
                    -1
                }
            },
            None => 0,
        }
    }
}

/// The character that stands for square `k`, counted from the lowest bit,
/// on a board where `marks[i]` is written on the squares of `boards[i]` and
/// the first board that holds a square decides: a dot where none does.
pub open spec fn square_char(boards: Seq<u16>, marks: Seq<char>, k: int) -> char
    decreases boards.len(),
{
    if boards.len() == 0 || marks.len() == 0 {
        '.'
    } else if boards[0] & (1u16 << (k as u16)) != 0 {
        marks[0]
    } else {
        square_char(boards.drop_first(), marks.drop_first(), k)
    }
}

/// The three rows of a board as text, a line each: twelve characters.
pub open spec fn grid_text(boards: Seq<u16>, marks: Seq<char>) -> Seq<char> {
    Seq::new(
        12,
        |i: int|
            if i % 4 == 3 {
                '\n'
            } else {
                square_char(boards, marks, 3 * (i / 4) + i % 4)
            },
    )
}

/// The squares of `board` as three lines of text, with `c` on the squares
/// it holds and a dot on the others.
pub fn board_text(board: u16, c: char) -> (text: String)
    ensures
        text@ == grid_text(seq![board], seq![c]),
{
    let mut board_str = String::new();
    let mut pos: u16 = 1;
    let mut row: usize = 0;
    proof {
        assert(1u16 << 0u16 == 1) by (bit_vector);
    }
    while row < 3
        invariant
            row <= 3,
            pos == 1u16 << ((3 * row) as u16),
            board_str@ == grid_text(seq![board], seq![c]).take(4 * row as int),
        decreases 3 - row,
    {
        let mut column: usize = 0;
        while column < 3
            invariant
                row < 3,
                column <= 3,
                pos == 1u16 << ((3 * row + column) as u16),
                board_str@ == grid_text(seq![board], seq![c]).take(4 * row + column),
            decreases 3 - column,
        {
            let ghost k = (3 * row + column) as int;
            proof {
                assert(square_char(seq![board], seq![c], k) == if board & pos != 0 {
                    c
                } else {
                    '.'
                }) by {
                    reveal_with_fuel(square_char, 2);
                    assert(seq![board].drop_first().len() == 0);
                }
                assert(grid_text(seq![board], seq![c]).take(4 * row + column + 1) =~= grid_text(
                    seq![board],
                    seq![c],
                ).take(4 * row + column).push(square_char(seq![board], seq![c], k)));
                let shift = k as u16;
                assert((1u16 << shift) << 1u16 == 1u16 << ((shift + 1) as u16)) by (bit_vector)
                    requires
                        shift < 9,
                ;
            }
            if board & pos == 0 {
                push_char(&mut board_str, '.');
            } else {
                push_char(&mut board_str, c);
            }
            pos <<= 1;
            column += 1;
        }
        proof {
            assert(grid_text(seq![board], seq![c]).take(4 * row + 4) =~= grid_text(
                seq![board],
                seq![c],
            ).take(4 * row + 3).push('\n'));
        }
        push_char(&mut board_str, '\n');
        row += 1;
    }
    proof {
        assert(grid_text(seq![board], seq![c]).take(12) =~= grid_text(seq![board], seq![c]));
    }
    board_str
}

impl TicTacToeMove {
    /// The move as a board on which a question mark shows the square.
    pub fn to_text(&self) -> (text: String)
        ensures
            text@ == grid_text(seq![self.pos], seq!['?']),
    {
        board_text(self.pos, '?')
    }
}

impl TicTacToePlayer {
    /// The player's letter.
    pub open spec fn letter(&self) -> char {
        match self {
            TicTacToePlayer::X => 'X',
            TicTacToePlayer::O => 'O',
        }
    }

    /// The player's letter as text.
    pub fn to_text(&self) -> (text: String)
        ensures
            text@ == seq![self.letter()],
    {
        let mut text = String::new();
        match self {
            TicTacToePlayer::X => push_char(&mut text, 'X'),
            TicTacToePlayer::O => push_char(&mut text, 'O'),
        }
        text
    }
}

impl TicTacToePosition {
    /// The line below the board: the winner, or that the game is drawn, or
    /// whose turn it is.
    pub open spec fn status_text(&self) -> Seq<char> {
        match self.winner() {
            Some(winner) => "Winner: "@.push(winner.letter()).push('\n'),
            None => if self.full() {
                "Draw\n"@
            } else {
                "Turn: "@.push(self.turn.letter()).push('\n')
            },
        }
    }

    /// The position as text: the board with the letters of the players,
    /// then the status line.
    pub fn to_text(&self) -> (text: String)
        ensures
            text@ == grid_text(seq![self.board_x, self.board_o], seq!['X', 'O']) + self.status_text(),
    {
        let ghost boards = seq![self.board_x, self.board_o];
        let ghost marks = seq!['X', 'O'];
        let mut board_str = String::new();
        let mut pos: u16 = 1;
        let mut row: usize = 0;
        proof {
            assert(1u16 << 0u16 == 1) by (bit_vector);
        }
        while row < 3
            invariant
                row <= 3,
                boards == seq![self.board_x, self.board_o],
                marks == seq!['X', 'O'],
                pos == 1u16 << ((3 * row) as u16),
                board_str@ == grid_text(boards, marks).take(4 * row as int),
            decreases 3 - row,
        {
            let mut column: usize = 0;
            while column < 3
                invariant
                    row < 3,
                    column <= 3,
                    boards == seq![self.board_x, self.board_o],
                    marks == seq!['X', 'O'],
                    pos == 1u16 << ((3 * row + column) as u16),
                    board_str@ == grid_text(boards, marks).take(4 * row + column),
                decreases 3 - column,
            {
                let ghost k = (3 * row + column) as int;
                proof {
                    assert(square_char(boards, marks, k) == if self.board_x & pos != 0 {
                        'X'
                    } else if self.board_o & pos != 0 {
                        'O'
                    } else {
                        '.'
                    }) by {
                        reveal_with_fuel(square_char, 3);
                        assert(boards.drop_first() =~= seq![self.board_o]);
                        assert(marks.drop_first() =~= seq!['O']);
                        assert(boards.drop_first().drop_first().len() == 0);
                    }
                    assert(grid_text(boards, marks).take(4 * row + column + 1) =~= grid_text(
                        boards,
                        marks,
                    ).take(4 * row + column).push(square_char(boards, marks, k)));
                    let shift = k as u16;
                    assert((1u16 << shift) << 1u16 == 1u16 << ((shift + 1) as u16)) by (bit_vector)
                        requires
                            shift < 9,
                    ;
                }
                if self.board_x & pos != 0 {
                    push_char(&mut board_str, 'X');
                } else if self.board_o & pos != 0 {
                    push_char(&mut board_str, 'O');
                } else {
                    push_char(&mut board_str, '.');
                }
                pos <<= 1;
                column += 1;
            }
            proof {
                assert(grid_text(boards, marks).take(4 * row + 4) =~= grid_text(boards, marks).take(
                    4 * row + 3,
                ).push('\n'));
            }
            push_char(&mut board_str, '\n');
            row += 1;
        }
        proof {
            assert(grid_text(boards, marks).take(12) =~= grid_text(boards, marks));
        }
        let winner = self.get_winner();
        match winner {
            Some(TicTacToePlayer::X) => board_str.append("Winner: X\n"),
            Some(TicTacToePlayer::O) => board_str.append("Winner: O\n"),
            None => {
                if self.is_board_full() {
                    board_str.append("Draw\n");
                } else {
                    board_str.append("Turn: ");
                    match self.turn {
                        TicTacToePlayer::X => push_char(&mut board_str, 'X'),
                        TicTacToePlayer::O => push_char(&mut board_str, 'O'),
                    }
                    push_char(&mut board_str, '\n');
                }
            },
        }
        proof {
            reveal_strlit("Winner: X\n");
            reveal_strlit("Winner: O\n");
            reveal_strlit("Winner: ");
            reveal_strlit("Draw\n");
            reveal_strlit("Turn: ");
            assert("Winner: X\n"@ =~= "Winner: "@.push('X').push('\n'));
            assert("Winner: O\n"@ =~= "Winner: "@.push('O').push('\n'));
            assert(board_str@ =~= grid_text(boards, marks) + self.status_text());
        }
        board_str
    }
}

} // verus!
