//! A game session: the board, whose turn it is, and the linear log of
//! played moves that undo and redo walk along.
use vstd::prelude::*;
use crate::board::{BoardError, SampleBoardManager};
use crate::cell::CellKind;

verus! {

/// The end of a game: who lost.
#[derive(Clone, Copy, PartialEq, Eq, Structural, Debug)]
pub struct GameOver {
    pub loser: bool,
}

/// Whether the game goes on.
#[derive(Clone, Copy, PartialEq, Eq, Structural, Debug)]
pub enum GameState {
    InProgress,
    Ended(GameOver),
}

/// Turn keeping: each player plays `moves_per_turn` moves in a row,
/// player 0 first; `current_move` counts the moves played. A player to
/// move with no crosses left has lost.
pub struct PlayerManager {
    pub moves_per_turn: usize,
    pub current_move: usize,
    pub state: GameState,
}

/// The player to move once `current_move` moves were played.
pub open spec fn player_at(current_move: int, moves_per_turn: int) -> bool {
    (current_move / moves_per_turn) % 2 == 1
}

impl PlayerManager {
    pub open spec fn wf(self) -> bool {
        self.moves_per_turn >= 1
    }

    /// `new` is this turn keeper one move later, `no_crosses` telling which
    /// players have no crosses left.
    pub open spec fn advanced(self, new: PlayerManager, no_crosses: [bool; 2]) -> bool {
        let next = player_at(self.current_move + 1, self.moves_per_turn as int);
        &&& new.moves_per_turn == self.moves_per_turn
        &&& new.current_move == self.current_move + 1
        &&& new.state == if (if next { no_crosses[1] } else { no_crosses[0] }) {
            GameState::Ended(GameOver { loser: next })
        } else {
            GameState::InProgress
        }
    }

    pub fn new(moves_per_turn: usize) -> (r: PlayerManager)
        requires
            moves_per_turn >= 1,
        ensures
            r.wf(),
            r.moves_per_turn == moves_per_turn,
            r.current_move == 0,
            r.state == GameState::InProgress,
    {
        PlayerManager { moves_per_turn, current_move: 0, state: GameState::InProgress }
    }

    pub fn current_player(&self) -> (r: bool)
        requires
            self.wf(),
        ensures
            r == player_at(self.current_move as int, self.moves_per_turn as int),
    {
        (self.current_move / self.moves_per_turn) % 2 == 1
    }

    pub fn current_move(&self) -> (r: usize)
        ensures
            r == self.current_move,
    {
        self.current_move
    }

    pub fn game_state(&self) -> (r: GameState)
        ensures
            r == self.state,
    {
        self.state
    }

    /// Counts one more move; the player now to move loses if
    /// `no_crosses` says they have no crosses left.
    pub fn advance(&mut self, no_crosses: [bool; 2])
        requires
            old(self).wf(),
            old(self).current_move < usize::MAX,
        ensures
            final(self).wf(),
            old(self).advanced(*final(self), no_crosses),
    {
        self.current_move = self.current_move + 1;
        let next = self.current_player();
        let lost = if next { no_crosses[1] } else { no_crosses[0] };
        self.state = if lost {
            GameState::Ended(GameOver { loser: next })
        } else {
            GameState::InProgress
        };
    }

    /// Takes the last move back; the game is on again.
    pub fn reverse(&mut self)
        requires
            old(self).current_move > 0,
        ensures
            final(self).moves_per_turn == old(self).moves_per_turn,
            final(self).current_move == old(self).current_move - 1,
            final(self).state == GameState::InProgress,
    {
        self.current_move = self.current_move - 1;
        self.state = GameState::InProgress;
    }
}

/// Why a session refused an action.
#[derive(Clone, Copy, PartialEq, Eq, Structural, Debug)]
pub enum CrossesError {
    BoardError(BoardError),
    PlayerError(GameOver),
    /// No move to take back.
    BackError,
    /// No move to play again.
    ForwardError,
    /// The log names a cell that holds no move.
    CorruptedLog,
}

impl CrossesError {
    /// The text of `message`.
    pub open spec fn message_text(self) -> Seq<char> {
        match self {
            CrossesError::BoardError(BoardError::OutOfReach) => "out of reach"@,
            CrossesError::BoardError(BoardError::SelfFill) => "cannot fill own cross"@,
            CrossesError::BoardError(BoardError::DoubleFill) => "already filled"@,
            CrossesError::BoardError(BoardError::BorderHit) => "border hit"@,
            CrossesError::BoardError(BoardError::EmptyCancel) => "nothing to cancel"@,
            CrossesError::PlayerError(_) => "game over"@,
            CrossesError::BackError => "there's no going back"@,
            CrossesError::ForwardError => "nothing ahead"@,
            CrossesError::CorruptedLog => "log was corrupted"@,
        }
    }

    /// A short description of the error for the player.
    pub fn message(&self) -> (r: String)
        ensures
            r@ == self.message_text(),
    {
        match self {
            CrossesError::BoardError(BoardError::OutOfReach) => "out of reach".to_owned(),
            CrossesError::BoardError(BoardError::SelfFill) => "cannot fill own cross".to_owned(),
            CrossesError::BoardError(BoardError::DoubleFill) => "already filled".to_owned(),
            CrossesError::BoardError(BoardError::BorderHit) => "border hit".to_owned(),
            CrossesError::BoardError(BoardError::EmptyCancel) => "nothing to cancel".to_owned(),
            CrossesError::PlayerError(_) => "game over".to_owned(),
            CrossesError::BackError => "there's no going back".to_owned(),
            CrossesError::ForwardError => "nothing ahead".to_owned(),
            CrossesError::CorruptedLog => "log was corrupted".to_owned(),
        }
    }
}

impl From<BoardError> for CrossesError {
    fn from(e: BoardError) -> (r: CrossesError)
        ensures
            r == CrossesError::BoardError(e),
    {
        CrossesError::BoardError(e)
    }
}

impl vstd::std_specs::convert::FromSpecImpl<BoardError> for CrossesError {
    open spec fn obeys_from_spec() -> bool {
        true
    }

    open spec fn from_spec(e: BoardError) -> CrossesError {
        CrossesError::BoardError(e)
    }
}

impl From<GameOver> for CrossesError {
    fn from(g: GameOver) -> (r: CrossesError)
        ensures
            r == CrossesError::PlayerError(g),
    {
        CrossesError::PlayerError(g)
    }
}

impl vstd::std_specs::convert::FromSpecImpl<GameOver> for CrossesError {
    open spec fn obeys_from_spec() -> bool {
        true
    }

    open spec fn from_spec(g: GameOver) -> CrossesError {
        CrossesError::PlayerError(g)
    }
}

/// A game session: the board, the turn keeper and the log of the played
/// coordinates; `player_manager.current_move` is the cursor into the log.
pub struct CrossesCore {
    pub board_manager: SampleBoardManager,
    pub player_manager: PlayerManager,
    pub log: Vec<(usize, usize)>,
}

/// Whether a tally is used up.
pub open spec fn none_left(t: [i64; 2]) -> [bool; 2] {
    [t[0] == 0, t[1] == 0]
}

impl CrossesCore {
    pub open spec fn wf(self) -> bool {
        &&& self.board_manager.wf()
        &&& self.player_manager.wf()
        &&& self.player_manager.current_move <= self.log@.len()
    }

    /// The player to move.
    pub open spec fn mover(self) -> bool {
        player_at(self.player_manager.current_move as int, self.player_manager.moves_per_turn as int)
    }

    /// Whether this session is well formed, for sessions that come from
    /// outside (a saved game).
    pub fn is_well_formed(&self) -> (r: bool)
        ensures
            r == self.wf(),
    {
        self.board_manager.is_well_formed() && self.player_manager.moves_per_turn >= 1
            && self.player_manager.current_move <= self.log.len()
    }

    /// Whether a move can be taken back.
    pub fn can_back(&self) -> (r: bool)
        ensures
            r == (self.player_manager.current_move != 0),
    {
        self.player_manager.current_move() != 0
    }

    /// Whether a taken-back move can be played again.
    pub fn can_forward(&self) -> (r: bool)
        ensures
            r == (self.player_manager.current_move != self.log@.len()),
    {
        self.player_manager.current_move() != self.log.len()
    }

    /// Plays the player to move at `(x, y)`, drops the moves that were
    /// taken back, and logs this one, so that nothing is left to redo. Refused once the game is over, or
    /// when the board refuses the move; a refused move changes nothing.
    pub fn make_move(&mut self, x: usize, y: usize) -> (r: Result<(), CrossesError>)
        requires
            old(self).wf(),
            old(self).player_manager.current_move < usize::MAX,
        ensures
            final(self).wf(),
            match old(self).player_manager.state {
                GameState::Ended(g) => r == Err::<(), CrossesError>(CrossesError::PlayerError(g))
                    && *final(self) == *old(self),
                GameState::InProgress => match old(self).board_manager.move_error(
                    x as int,
                    y as int,
                    old(self).mover(),
                ) {
                    Some(e) => r == Err::<(), CrossesError>(CrossesError::BoardError(e))
                        && *final(self) == *old(self),
                    None => {
                        &&& r is Ok
                        &&& old(self).board_manager.moved(
                            final(self).board_manager,
                            x as int,
                            y as int,
                            old(self).mover(),
                        )
                        &&& old(self).player_manager.advanced(
                            final(self).player_manager,
                            none_left(final(self).board_manager.crosses_counter),
                        )
                        &&& final(self).log@ == old(self).log@.take(
                            old(self).player_manager.current_move as int,
                        ).push((x, y))
                        &&& final(self).log@.len() == final(self).player_manager.current_move
                    },
                },
            },
    {
        if let GameState::Ended(game_over) = self.player_manager.game_state() {
            return Err(CrossesError::from(game_over));
        }
        let player = self.player_manager.current_player();
        match self.board_manager.make_move((x, y), player) {
            Err(e) => {
                return Err(CrossesError::from(e));
            },
            Ok(()) => {},
        }
        let c = self.board_manager.crosses_counter;
        self.player_manager.advance([c[0] == 0, c[1] == 0]);
        self.log.truncate(self.player_manager.current_move() - 1);
        self.log.push((x, y));
        Ok(())
    }

    /// Takes the last played move back. Refused when there is none, or
    /// when the logged cell holds no move.
    pub fn back(&mut self) -> (r: Result<(), CrossesError>)
        requires
            old(self).wf(),
        ensures
            final(self).wf(),
            ({
                let cm = old(self).player_manager.current_move;
                if cm == 0 {
                    r == Err::<(), CrossesError>(CrossesError::BackError) && *final(self) == *old(self)
                } else {
                    let idx = old(self).log@[cm - 1];
                    let c = old(self).board_manager.cell(idx.0 as int, idx.1 as int);
                    if c.kind == CellKind::Empty || c.kind == CellKind::Border {
                        r == Err::<(), CrossesError>(CrossesError::CorruptedLog) && *final(self)
                            == *old(self)
                    } else {
                        &&& r is Ok
                        &&& old(self).board_manager.cancelled(
                            final(self).board_manager,
                            idx.0 as int,
                            idx.1 as int,
                            !c.player,
                        )
                        &&& final(self).player_manager.moves_per_turn == old(self).player_manager.moves_per_turn
                        &&& final(self).player_manager.current_move == cm - 1
                        &&& final(self).player_manager.state == GameState::InProgress
                        &&& final(self).log@ == old(self).log@
                    }
                }
            }),
    {
        let cm = self.player_manager.current_move();
        if cm == 0 {
            return Err(CrossesError::BackError);
        }
        let index = self.log[cm - 1];
        let cell = self.board_manager.get(index);
        if cell.kind == CellKind::Empty || cell.kind == CellKind::Border {
            return Err(CrossesError::CorruptedLog);
        }
        let player = cell.player;
        match self.board_manager.cancel_move(index, !player) {
            Err(e) => {
                return Err(CrossesError::from(e));
            },
            Ok(()) => {},
        }
        self.player_manager.reverse();
        Ok(())
    }

    /// Plays the next taken-back move again. Refused when none is left, or
    /// when the board refuses it.
    pub fn forward(&mut self) -> (r: Result<(), CrossesError>)
        requires
            old(self).wf(),
        ensures
            final(self).wf(),
            ({
                let cm = old(self).player_manager.current_move;
                if cm >= old(self).log@.len() {
                    r == Err::<(), CrossesError>(CrossesError::ForwardError) && *final(self) == *old(self)
                } else {
                    let idx = old(self).log@[cm as int];
                    match old(self).board_manager.move_error(idx.0 as int, idx.1 as int, old(self).mover()) {
                        Some(e) => r == Err::<(), CrossesError>(CrossesError::BoardError(e))
                            && *final(self) == *old(self),
                        None => {
                            &&& r is Ok
                            &&& old(self).board_manager.moved(
                                final(self).board_manager,
                                idx.0 as int,
                                idx.1 as int,
                                old(self).mover(),
                            )
                            &&& old(self).player_manager.advanced(
                                final(self).player_manager,
                                none_left(final(self).board_manager.crosses_counter),
                            )
                            &&& final(self).log@ == old(self).log@
                        },
                    }
                }
            }),
    {
        let cm = self.player_manager.current_move();
        if cm >= self.log.len() {
            return Err(CrossesError::ForwardError);
        }
        let index = self.log[cm];
        let player = self.player_manager.current_player();
        match self.board_manager.make_move(index, player) {
            Err(e) => {
                return Err(CrossesError::from(e));
            },
            Ok(()) => {},
        }
        let c = self.board_manager.crosses_counter;
        self.player_manager.advance([c[0] == 0, c[1] == 0]);
        Ok(())
    }

    /// A new game on a fresh `max_x` by `max_y` board.
    pub fn new(max_x: usize, max_y: usize, moves_per_turn: usize) -> (r: CrossesCore)
        requires
            1 < max_x <= 16,
            1 < max_y <= 16,
            moves_per_turn >= 1,
        ensures
            r.wf(),
            r.board_manager.is_fresh(max_x as int, max_y as int),
            r.player_manager.current_move == 0,
            r.player_manager.moves_per_turn == moves_per_turn,
            r.player_manager.state == GameState::InProgress,
            r.log@.len() == 0,
    {
        CrossesCore {
            board_manager: SampleBoardManager::new(max_x, max_y),
            player_manager: PlayerManager::new(moves_per_turn),
            log: Vec::new(),
        }
    }
}

} // verus!
