use vstd::prelude::*;

use crate::command::{lower_of, normalize, parse_normalized, trim_of, Command};
pub use crate::command::GameCommand;
use crate::errors::GameError;
use crate::exec::{
    accepted, executed, game_command_applied, remaining_of, transition_of, GameCommandExecutor,
    GameView, Transition,
};
pub use crate::exec::GameState;

verus! {

/// Mathematical picture of a store.
pub struct StoreView {
    pub game: GameView,
    pub current_cmd: GameCommand,
    pub errors: Seq<GameError>,
    pub history: Seq<Seq<char>>,
}

/// The single owner of a game session: every command, typed or clicked,
/// and every timer tick goes through it, and refused commands are kept
/// for display.
pub struct GameStore {
    current_cmd: GameCommand,
    errors: Vec<GameError>,
    cmd_history: Vec<String>,
    game: GameCommandExecutor,
}

impl View for GameStore {
    type V = StoreView;

    closed spec fn view(&self) -> StoreView {
        StoreView {
            game: self.game@,
            current_cmd: self.current_cmd,
            errors: self.errors@,
            history: self.cmd_history@.map_values(|s: String| s@),
        }
    }
}

/// The board command a transition carries, or `Noop`.
pub open spec fn game_command_in(t: Transition) -> GameCommand {
    match t {
        Transition::DrawBoard(Command::Game(g)) => g,
        _ => GameCommand::Noop,
    }
}

impl GameStore {
    /// A store whose session has no round yet.
    pub fn new() -> (r: GameStore)
        ensures
            r@.game.wf(),
            r@.game.state == GameState::Init,
            r@.current_cmd == GameCommand::Noop,
            r@.errors.len() == 0,
            r@.history.len() == 0,
    {
        let r = GameStore {
            current_cmd: GameCommand::Noop,
            errors: Vec::new(),
            cmd_history: Vec::new(),
            game: GameCommandExecutor::new(),
        };
        assert(r@.history =~= Seq::<Seq<char>>::empty());
        r
    }

    /// The board command last accepted from text.
    pub fn cmd(&self) -> (r: &GameCommand)
        ensures
            *r == self@.current_cmd,
    {
        &self.current_cmd
    }

    pub fn errors(&self) -> (r: &Vec<GameError>)
        ensures
            r@ == self@.errors,
    {
        &self.errors
    }

    /// Every command text submitted, trimmed and lower-cased.
    pub fn cmd_history(&self) -> (r: &Vec<String>)
        ensures
            r@.map_values(|s: String| s@) == self@.history,
    {
        &self.cmd_history
    }

    pub fn game(&self) -> (r: &GameCommandExecutor)
        ensures
            r@ == self@.game,
    {
        &self.game
    }

    /// Submits a command text at second `now`: it is read, checked against
    /// the current phase and carried out. A refused command leaves the
    /// session as it was and its error is kept. Returns whether the player
    /// asked to leave the game.
    pub fn parse_command(&mut self, cmd: &str, now: u64) -> (r: Result<bool, GameError>)
        requires
            old(self)@.game.wf(),
        ensures
            final(self)@.game.wf(),
            final(self)@.history == old(self)@.history.push(lower_of(trim_of(cmd@))),
            match accepted(old(self)@.game.state, cmd@) {
                Err(e) => {
                    &&& r == Err::<bool, GameError>(e)
                    &&& final(self)@.errors == old(self)@.errors.push(e)
                    &&& final(self)@.game == old(self)@.game
                    &&& final(self)@.current_cmd == GameCommand::Noop
                },
                Ok(t) => {
                    &&& r matches Ok(exit) && executed(old(self)@.game, final(self)@.game, t, now, exit)
                    &&& final(self)@.errors == old(self)@.errors
                    &&& final(self)@.current_cmd == game_command_in(t)
                },
            },
    {
        let text = normalize(cmd);
        let parsed = match parse_normalized(text.as_str()) {
            Ok(c) => self.game.transition(c),
            Err(e) => Err(e),
        };
        let ghost old_history = self.cmd_history@;
        self.current_cmd = GameCommand::Noop;
        let r = match parsed {
            Ok(t) => {
                if let Transition::DrawBoard(Command::Game(g)) = t {
                    self.current_cmd = g;
                }
                Ok(self.game.exec(&t, now))
            },
            Err(e) => {
                self.errors.push(e);
                Err(e)
            },
        };
        self.cmd_history.push(text);
        assert(self.cmd_history@.map_values(|s: String| s@) =~= old_history.map_values(|s: String| s@).push(
            lower_of(trim_of(cmd@)),
        ));
        r
    }

    /// Submits a board command given by position (a click) at second `now`;
    /// it passes the same phase check as typed text, and a position off the
    /// board is refused.
    pub fn submit_game_command(&mut self, cmd: GameCommand, now: u64) -> (r: Result<(), GameError>)
        requires
            old(self)@.game.wf(),
        ensures
            final(self)@.game.wf(),
            final(self)@.history == old(self)@.history,
            final(self)@.current_cmd == old(self)@.current_cmd,
            !cmd.on_board() ==> {
                &&& r == Err::<(), GameError>(GameError::InvalidArgument)
                &&& final(self)@.errors == old(self)@.errors.push(GameError::InvalidArgument)
                &&& final(self)@.game == old(self)@.game
            },
            cmd.on_board() ==> match transition_of(old(self)@.game.state, Command::Game(cmd)) {
                Err(e) => {
                    &&& r == Err::<(), GameError>(e)
                    &&& final(self)@.errors == old(self)@.errors.push(e)
                    &&& final(self)@.game == old(self)@.game
                },
                Ok(_) => {
                    &&& r is Ok
                    &&& game_command_applied(old(self)@.game, final(self)@.game, cmd)
                    &&& final(self)@.errors == old(self)@.errors
                },
            },
    {
        if !cmd.is_on_board() {
            self.errors.push(GameError::InvalidArgument);
            return Err(GameError::InvalidArgument);
        }
        match self.game.transition(Command::Game(cmd)) {
            Ok(t) => {
                self.game.exec(&t, now);
                Ok(())
            },
            Err(e) => {
                self.errors.push(e);
                Err(e)
            },
        }
    }

    /// A timer tick at second `now`: returns the seconds left, and when
    /// none are left on a running countdown the round is lost.
    pub fn tick(&mut self, now: u64) -> (remaining: u64)
        requires
            old(self)@.game.wf(),
        ensures
            remaining == remaining_of(old(self)@.game.timer, now),
            final(self)@.game == if remaining == 0 {
                old(self)@.game.expired()
            } else {
                old(self)@.game
            },
            final(self)@.game.wf(),
            final(self)@.errors == old(self)@.errors,
            final(self)@.history == old(self)@.history,
            final(self)@.current_cmd == old(self)@.current_cmd,
    {
        let remaining = self.game.remaining_seconds(now);
        self.game.timer_checkin(remaining);
        remaining
    }
}

} // verus!
