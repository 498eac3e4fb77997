use vstd::prelude::*;

use crate::board::{
    adjacent, cell, flood_closed, flood_connected, in_grid, lemma_closed_are_mines_iff,
    lemma_fresh_board_not_won, lemma_mines_shown_keeps_safe, lemma_only_safe_opened_chain, neighbour_seq,
    neighbours,
    only_safe_opened, Board,
    BoardView, CELLS,
};
pub use crate::board::TileState;
use crate::command::{command_of, lower_of, parse, trim_of};
pub use crate::command::{Command, GameCommand, SystemCommand};
use crate::errors::GameError;

verus! {

/// Seconds a round may last.
pub const TIME_LIMIT: u64 = 300;

/// Phase of the game.
#[derive(Clone, Copy, Debug, Default, PartialEq, Eq, Structural, Hash)]
pub enum GameState {
    /// No round dealt yet.
    #[default]
    Init,
    /// A round is being played.
    DrawBoard,
    Win,
    Lose,
}

/// The round's countdown.
#[derive(Clone, Copy, Debug, Default, PartialEq, Eq, Structural, Hash)]
pub enum TimerState {
    #[default]
    Reset,
    /// Running since the given second.
    Started(u64),
    Paused,
}

/// A command paired with the phase it was accepted in.
#[derive(Clone, Copy, Debug, PartialEq, Eq, Structural, Hash)]
pub enum Transition {
    Init(SystemCommand),
    DrawBoard(Command),
    Win(SystemCommand),
    Lose(SystemCommand),
}

/// Which commands each phase accepts: system commands in every phase,
/// board commands only while a round is in play.
pub open spec fn transition_of(state: GameState, c: Command) -> Result<Transition, GameError> {
    match c {
        Command::System(s) => Ok(
            match state {
                GameState::Init => Transition::Init(s),
                GameState::DrawBoard => Transition::DrawBoard(c),
                GameState::Win => Transition::Win(s),
                GameState::Lose => Transition::Lose(s),
            },
        ),
        Command::Game(_) => if state == GameState::DrawBoard {
            Ok(Transition::DrawBoard(c))
        } else {
            Err(GameError::InvalidArgument)
        },
    }
}

/// Seconds left on the countdown at second `now`.
pub open spec fn remaining_of(timer: TimerState, now: u64) -> u64 {
    match timer {
        TimerState::Started(at) => {
            let elapsed = if now >= at {
                now - at
            } else {
                0
            };
            if elapsed >= TIME_LIMIT {
                0
            } else {
                (TIME_LIMIT - elapsed) as u64
            }
        },
        _ => TIME_LIMIT,
    }
}

/// Mathematical picture of a game session.
pub struct GameView {
    pub board: BoardView,
    pub state: GameState,
    pub timer: TimerState,
}

/// No tile shows a mine.
pub open spec fn mines_hidden(b: BoardView) -> bool {
    forall|x: int, y: int|
        in_grid(x, y) ==> #[trigger] b.tile(x, y) != TileState::Detonated && b.tile(x, y) != TileState::Revealed
}

impl GameView {
    /// Well-formed: a board exists outside `Init`; the timer runs exactly
    /// while a round is in play; mines are shown only once a round is lost; a round in play or
    /// lost still has a safe cell to step on, a won round has none.
    pub open spec fn wf(self) -> bool {
        &&& self.state != GameState::Init ==> self.board.wf()
        &&& self.state == GameState::Init ==> self.timer == TimerState::Reset
        &&& self.timer is Started <==> self.state == GameState::DrawBoard
        &&& self.state == GameState::DrawBoard || self.state == GameState::Win ==> mines_hidden(self.board)
        &&& self.state == GameState::DrawBoard || self.state == GameState::Lose ==> !self.board.safe_all_stepped()
        &&& self.state == GameState::Win ==> self.board.safe_all_stepped()
    }

    pub open spec fn with_board(self, b: BoardView) -> GameView {
        GameView { board: b, state: self.state, timer: self.timer }
    }

    /// The session after the countdown ran out: a running round is lost and
    /// every mine shown; otherwise nothing happens.
    pub open spec fn expired(self) -> GameView {
        if self.timer is Started {
            GameView {
                board: self.board.mines_shown(CELLS as int, TileState::Revealed),
                state: GameState::Lose,
                timer: TimerState::Reset,
            }
        } else {
            self
        }
    }

    /// A fresh round on `b`, started at second `now`.
    pub open spec fn dealt(b: BoardView, now: u64) -> GameView {
        GameView { board: b, state: GameState::DrawBoard, timer: TimerState::Started(now) }
    }
}

/// `after` is `before` once the player stepped on `(x, y)` during play.
pub open spec fn stepped(before: GameView, after: GameView, x: int, y: int) -> bool {
    let b = before.board;
    if b.tile(x, y) == TileState::Concealed && b.mine(x, y) {
        &&& after.board == b.with_tile(x, y, TileState::Detonated).mines_shown(cell(x, y), TileState::Revealed)
        &&& after.state == GameState::Lose
        &&& after.timer == TimerState::Reset
    } else {
        &&& b.tile(x, y) != TileState::Concealed ==> after.board == b
        &&& b.tile(x, y) == TileState::Concealed ==> {
            &&& after.board.tile(x, y) == TileState::Stepped
            &&& only_safe_opened(b, after.board)
            &&& flood_closed(b, after.board, x, y)
            &&& flood_connected(b, after.board, x, y)
        }
        &&& if after.board.safe_all_stepped() {
            after.state == GameState::Win && after.timer == TimerState::Reset
        } else {
            after.state == before.state && after.timer == before.timer
        }
    }
}

/// One move of a walk: during play a concealed cell `c` is stepped on;
/// otherwise nothing changes.
pub open spec fn walk_move(before: GameView, after: GameView, c: (usize, usize)) -> bool {
    if before.state == GameState::DrawBoard && before.board.tile(c.0 as int, c.1 as int) == TileState::Concealed {
        stepped(before, after, c.0 as int, c.1 as int)
    } else {
        after == before
    }
}

/// `after` is `before` once the first `i` cells of `cs` were walked in
/// order, one `walk_move` each.
pub open spec fn walked(before: GameView, after: GameView, cs: Seq<(usize, usize)>, i: nat) -> bool
    decreases i,
{
    if i == 0 {
        after == before
    } else {
        exists|mid: GameView|
            walked(before, mid, cs, (i - 1) as nat) && #[trigger] walk_move(mid, after, cs[i - 1])
    }
}

/// `after` is `before` once the player stepped, in row-major order, on
/// every concealed cell around the stepped cell `(x, y)` during play,
/// until a mine ended the round.
pub open spec fn neighbours_stepped(before: GameView, after: GameView, x: int, y: int) -> bool {
    if before.board.tile(x, y) != TileState::Stepped {
        after == before
    } else {
        &&& walked(before, after, neighbour_seq(x, y), neighbour_seq(x, y).len())
        &&& after.state == GameState::DrawBoard ==> after.board.settled(x, y)
        &&& after.state == GameState::Lose ==> exists|a: int, b: int|
            adjacent(x, y, a, b) && #[trigger] before.board.tile(a, b) == TileState::Concealed
                && before.board.mine(a, b)
        &&& after.state == GameState::Win ==> after.board.safe_all_stepped()
        &&& after.state != GameState::Lose ==> only_safe_opened(before.board, after.board)
    }
}

/// `after` is `before` once the board command `cmd` was applied during play.
pub open spec fn game_command_applied(before: GameView, after: GameView, cmd: GameCommand) -> bool {
    match cmd {
        GameCommand::Noop => after == before,
        GameCommand::Step(x, y) => stepped(before, after, x as int, y as int),
        GameCommand::NeighboursStep(x, y) => neighbours_stepped(before, after, x as int, y as int),
        GameCommand::Flag(x, y) => after == before.with_board(before.board.flagged(x as int, y as int)),
        GameCommand::Unflag(x, y) => after == before.with_board(before.board.unflagged(x as int, y as int)),
        GameCommand::Toggle(x, y) => after == before.with_board(before.board.toggled(x as int, y as int)),
    }
}

/// The game session: board, phase and countdown, changed only through its
/// commands.
pub struct GameCommandExecutor {
    board: Board,
    timer_state: TimerState,
    state: GameState,
}

impl View for GameCommandExecutor {
    type V = GameView;

    closed spec fn view(&self) -> GameView {
        GameView { board: self.board@, state: self.state, timer: self.timer_state }
    }
}

impl GameCommandExecutor {
    /// A session before its first round: no board yet.
    pub fn new() -> (r: GameCommandExecutor)
        ensures
            r@.wf(),
            r@.board.counts.len() == 0,
            r@.board.tiles.len() == 0,
            r@.state == GameState::Init,
            r@.timer == TimerState::Reset,
    {
        GameCommandExecutor { board: Board::unplaced(), timer_state: TimerState::Reset, state: GameState::Init }
    }

    pub fn current_state(&self) -> (r: &GameState)
        ensures
            *r == self@.state,
    {
        &self.state
    }

    pub fn timer_state(&self) -> (r: TimerState)
        ensures
            r == self@.timer,
    {
        self.timer_state
    }

    /// The board of the current round (empty before the first round).
    pub fn board(&self) -> (r: &Board)
        ensures
            r@ == self@.board,
    {
        &self.board
    }

    fn transition_into(&mut self, state: GameState)
        ensures
            final(self)@ == (GameView { state, ..old(self)@ }),
    {
        self.state = state;
    }

    /// Pairs a command with the current phase, refusing what the phase does
    /// not accept.
    pub fn transition(&self, c: Command) -> (r: Result<Transition, GameError>)
        ensures
            r == transition_of(self@.state, c),
    {
        match c {
            Command::System(s) => Ok(
                match self.state {
                    GameState::Init => Transition::Init(s),
                    GameState::DrawBoard => Transition::DrawBoard(c),
                    GameState::Win => Transition::Win(s),
                    GameState::Lose => Transition::Lose(s),
                },
            ),
            Command::Game(_) => if self.state == GameState::DrawBoard {
                Ok(Transition::DrawBoard(c))
            } else {
                Err(GameError::InvalidArgument)
            },
        }
    }

    /// Reads a command text and checks that the current phase accepts it.
    pub fn parse_command(&self, cmd: &str) -> (r: Result<Transition, GameError>)
        ensures
            r == accepted(self@.state, cmd@),
            r matches Ok(Transition::DrawBoard(Command::Game(g))) ==> g.on_board(),
    {
        match parse(cmd) {
            Ok(c) => self.transition(c),
            Err(e) => Err(e),
        }
    }

    /// Deals `board` as a fresh round started at second `now`.
    pub fn start_round(&mut self, board: Board, now: u64)
        requires
            board@.wf(),
            board@.all_concealed(),
            board@.mine_total() < 64,
        ensures
            final(self)@ == GameView::dealt(board@, now),
            final(self)@.wf(),
    {
        proof {
            lemma_fresh_board_not_won(board@);
        }
        self.board = board;
        self.timer_state = TimerState::Started(now);
        self.transition_into(GameState::DrawBoard);
    }

    /// Deals a freshly generated board and starts the countdown.
    fn reinit(&mut self, now: u64)
        ensures
            final(self)@.wf(),
            final(self)@.state == GameState::DrawBoard,
            final(self)@.timer == TimerState::Started(now),
            final(self)@.board.wf(),
            final(self)@.board.all_concealed(),
            final(self)@.board.mine_total() == 16,
    {
        let board = Board::generate();
        self.start_round(board, now);
    }

    /// Every concealed or flagged tile hides a mine and the round is not
    /// lost.
    pub fn considered_win(&self) -> (r: bool)
        requires
            self@.board.wf(),
        ensures
            r == (self@.board.safe_all_stepped() && self@.state != GameState::Lose),
    {
        proof {
            lemma_closed_are_mines_iff(self@.board);
        }
        self.board.all_closed_or_flagged_tiles_are_mines() && self.still_playing()
    }

    fn still_playing(&self) -> (r: bool)
        ensures
            r == (self@.state != GameState::Lose),
    {
        self.state != GameState::Lose
    }

    /// Steps on `(x, y)`: a mine loses the round, a safe cell is opened
    /// (flooding where no mine is around it), and opening the last safe
    /// cell wins the round.
    pub fn step(&mut self, x: usize, y: usize)
        requires
            old(self)@.wf(),
            old(self)@.state == GameState::DrawBoard,
            in_grid(x as int, y as int),
        ensures
            final(self)@.wf(),
            stepped(old(self)@, final(self)@, x as int, y as int),
    {
        let ghost before = self@;
        let detonated = self.board.step_on(x, y);
        if detonated {
            self.timer_state = TimerState::Reset;
            self.transition_into(GameState::Lose);
            proof {
                let b = before.board;
                lemma_mines_shown_keeps_safe(
                    b.with_tile(x as int, y as int, TileState::Detonated),
                    cell(x as int, y as int),
                    TileState::Revealed,
                );
                let (p, q) = choose|p: int, q: int|
                    in_grid(p, q) && !#[trigger] b.mine(p, q) && b.tile(p, q) != TileState::Stepped;
                assert(b.with_tile(x as int, y as int, TileState::Detonated).tile(p, q) == b.tile(p, q)) by {
                    assert(cell(p, q) != cell(x as int, y as int));
                }
                assert(self@.board.tile(p, q) == b.tile(p, q));
                assert(!self@.board.mine(p, q));
            }
            return;
        }
        proof {
            if before.board.tile(x as int, y as int) == TileState::Concealed {
                assert forall|p: int, q: int| in_grid(p, q) implies #[trigger] self@.board.tile(p, q)
                    != TileState::Detonated && self@.board.tile(p, q) != TileState::Revealed by {
                    assert(before.board.tile(p, q) != TileState::Detonated);
                }
            }
        }
        if self.considered_win() {
            self.state = GameState::Win;
            self.timer_state = TimerState::Reset;
        }
    }

    /// Steps on every concealed cell around `(x, y)`, until a mine ends the
    /// round; only a cell already stepped on allows it.
    pub fn neighbours_step(&mut self, x: usize, y: usize)
        requires
            old(self)@.wf(),
            old(self)@.state == GameState::DrawBoard,
            in_grid(x as int, y as int),
        ensures
            final(self)@.wf(),
            neighbours_stepped(old(self)@, final(self)@, x as int, y as int),
    {
        if self.board.tile(x, y) != TileState::Stepped {
            return;
        }
        let ghost before = self@;
        let ns = neighbours(x, y);
        let mut i: usize = 0;
        while i < ns.len()
            invariant
                ns@ == neighbour_seq(x as int, y as int),
                walked(before, self@, ns@, i as nat),
                self@.wf(),
                self@.state != GameState::Init,
                before.state == GameState::DrawBoard,
                before.wf(),
                in_grid(x as int, y as int),
                i <= ns.len(),
                forall|m: int| 0 <= m < ns.len() ==> adjacent(x as int, y as int, #[trigger] ns[m].0 as int, ns[m].1 as int),
                forall|a: int, b: int|
                    adjacent(x as int, y as int, a, b) ==> #[trigger] ns@.contains((a as usize, b as usize)),
                self@.board.counts == before.board.counts,
                forall|a: int, b: int|
                    in_grid(a, b) && #[trigger] self@.board.tile(a, b) == TileState::Concealed ==> before.board.tile(a, b)
                        == TileState::Concealed,
                self@.state == GameState::DrawBoard ==> forall|m: int|
                    0 <= m < i ==> #[trigger] self@.board.tile(ns[m].0 as int, ns[m].1 as int) != TileState::Concealed,
                self@.state == GameState::Lose ==> exists|a: int, b: int|
                    adjacent(x as int, y as int, a, b) && #[trigger] before.board.tile(a, b) == TileState::Concealed
                        && before.board.mine(a, b),
                self@.state != GameState::Lose ==> only_safe_opened(before.board, self@.board),
            decreases ns.len() - i,
        {
            let (a, b) = ns[i];
            let ghost pre = self@;
            if self.state == GameState::DrawBoard && self.board.tile(a, b) == TileState::Concealed {
                self.step(a, b);
                proof {
                    lemma_step_keeps(pre, self@, a as int, b as int);
                    if self@.state != GameState::Lose {
                        lemma_only_safe_opened_chain(before.board, pre.board, self@.board);
                    }
                    if self@.state == GameState::Lose {
                        assert(before.board.tile(a as int, b as int) == TileState::Concealed);
                        assert(pre.board.mine(a as int, b as int));
                        assert(adjacent(x as int, y as int, a as int, b as int));
                    }
                }
            }
            proof {
                let j: nat = (i + 1) as nat;
                assert(walk_move(pre, self@, ns@[j - 1]));
                assert(walked(before, pre, ns@, (j - 1) as nat));
                assert(walked(before, self@, ns@, j));
            }
            i += 1;
        }
        proof {
            if self@.state == GameState::DrawBoard {
                assert forall|a: int, b: int| adjacent(x as int, y as int, a, b) implies #[trigger] self@.board.tile(a, b)
                    != TileState::Concealed by {
                    assert(ns@.contains((a as usize, b as usize)));
                    let m = choose|m: int| 0 <= m < ns.len() && ns@[m] == (a as usize, b as usize);
                    assert(self@.board.tile(ns[m].0 as int, ns[m].1 as int) != TileState::Concealed);
                }
            }
        }
    }

    fn flag(&mut self, x: usize, y: usize)
        requires
            old(self)@.wf(),
            old(self)@.state == GameState::DrawBoard,
            in_grid(x as int, y as int),
        ensures
            final(self)@ == old(self)@.with_board(old(self)@.board.flagged(x as int, y as int)),
            final(self)@.wf(),
    {
        let ghost before = self@;
        self.board.flag(x, y);
        proof {
            lemma_flag_change_keeps(before, self@, x as int, y as int);
        }
    }

    fn unflag(&mut self, x: usize, y: usize)
        requires
            old(self)@.wf(),
            old(self)@.state == GameState::DrawBoard,
            in_grid(x as int, y as int),
        ensures
            final(self)@ == old(self)@.with_board(old(self)@.board.unflagged(x as int, y as int)),
            final(self)@.wf(),
    {
        let ghost before = self@;
        self.board.unflag(x, y);
        proof {
            lemma_flag_change_keeps(before, self@, x as int, y as int);
        }
    }

    fn toggle_flag(&mut self, x: usize, y: usize)
        requires
            old(self)@.wf(),
            old(self)@.state == GameState::DrawBoard,
            in_grid(x as int, y as int),
        ensures
            final(self)@ == old(self)@.with_board(old(self)@.board.toggled(x as int, y as int)),
            final(self)@.wf(),
    {
        let ghost before = self@;
        self.board.toggle_flag(x, y);
        proof {
            lemma_flag_change_keeps(before, self@, x as int, y as int);
        }
    }

    /// Applies a board command; outside play nothing changes.
    pub fn exec_game_command(&mut self, cmd: &GameCommand)
        requires
            old(self)@.wf(),
            cmd.on_board(),
        ensures
            final(self)@.wf(),
            old(self)@.state != GameState::DrawBoard ==> final(self)@ == old(self)@,
            old(self)@.state == GameState::DrawBoard ==> game_command_applied(old(self)@, final(self)@, *cmd),
    {
        if self.state != GameState::DrawBoard {
            return;
        }
        match *cmd {
            GameCommand::Noop => {},
            GameCommand::Step(x, y) => self.step(x, y),
            GameCommand::NeighboursStep(x, y) => self.neighbours_step(x, y),
            GameCommand::Flag(x, y) => self.flag(x, y),
            GameCommand::Unflag(x, y) => self.unflag(x, y),
            GameCommand::Toggle(x, y) => self.toggle_flag(x, y),
        }
    }

    /// Carries out an accepted command at second `now`. Returns whether the
    /// player asked to leave the game; leaving itself is up to the caller.
    pub fn exec(&mut self, cmd: &Transition, now: u64) -> (exit: bool)
        requires
            old(self)@.wf(),
            *cmd matches Transition::DrawBoard(Command::Game(g)) ==> g.on_board(),
        ensures
            final(self)@.wf(),
            executed(old(self)@, final(self)@, *cmd, now, exit),
    {
        match cmd {
            Transition::Init(SystemCommand::Start) => {
                self.reinit(now);
                false
            },
            Transition::DrawBoard(Command::System(SystemCommand::Restart)) => {
                self.reinit(now);
                false
            },
            Transition::Win(SystemCommand::Restart) => {
                self.reinit(now);
                false
            },
            Transition::Lose(SystemCommand::Restart) => {
                self.reinit(now);
                false
            },
            Transition::DrawBoard(Command::Game(g)) => {
                self.exec_game_command(g);
                false
            },
            Transition::Init(SystemCommand::Exit) => true,
            Transition::DrawBoard(Command::System(SystemCommand::Exit)) => true,
            Transition::Win(SystemCommand::Exit) => true,
            Transition::Lose(SystemCommand::Exit) => true,
            _ => false,
        }
    }

    /// Seconds left on the countdown at second `now`.
    pub fn remaining_seconds(&self, now: u64) -> (r: u64)
        ensures
            r == remaining_of(self@.timer, now),
    {
        match self.timer_state {
            TimerState::Started(at) => {
                let elapsed = if now >= at {
                    now - at
                } else {
                    0
                };
                if elapsed >= TIME_LIMIT {
                    0
                } else {
                    TIME_LIMIT - elapsed
                }
            },
            _ => TIME_LIMIT,
        }
    }

    /// The countdown ran out: a running round is lost with every mine shown.
    /// Does nothing when no countdown runs.
    pub fn timer_expired(&mut self)
        requires
            old(self)@.wf(),
        ensures
            final(self)@ == old(self)@.expired(),
            final(self)@.wf(),
    {
        if let TimerState::Started(_) = self.timer_state {
            self.detonate_all();
        }
    }

    fn detonate_all(&mut self)
        requires
            old(self)@.wf(),
            old(self)@.state == GameState::DrawBoard,
        ensures
            final(self)@ == (GameView {
                board: old(self)@.board.mines_shown(CELLS as int, TileState::Revealed),
                state: GameState::Lose,
                timer: TimerState::Reset,
            }),
            final(self)@.wf(),
    {
        let ghost b = self@.board;
        self.board.all_bombs(CELLS, TileState::Revealed);
        self.timer_state = TimerState::Reset;
        self.transition_into(GameState::Lose);
        proof {
            lemma_mines_shown_keeps_safe(b, CELLS as int, TileState::Revealed);
            let (p, q) = choose|p: int, q: int|
                in_grid(p, q) && !#[trigger] b.mine(p, q) && b.tile(p, q) != TileState::Stepped;
            assert(self@.board.tile(p, q) == b.tile(p, q));
            assert(!self@.board.mine(p, q));
        }
    }

    /// Reports the seconds left on the countdown: at zero the round is lost
    /// as by `timer_expired`.
    pub fn timer_checkin(&mut self, current: u64)
        requires
            old(self)@.wf(),
        ensures
            final(self)@ == if current == 0 {
                old(self)@.expired()
            } else {
                old(self)@
            },
            final(self)@.wf(),
    {
        if current == 0 {
            self.timer_expired();
        }
    }
}

/// `after` is `before` once the accepted command `t` was carried out at
/// second `now`, and `exit` tells whether it asked to leave the game.
pub open spec fn executed(before: GameView, after: GameView, t: Transition, now: u64, exit: bool) -> bool {
    &&& exit == exits(t)
    &&& deals(t) ==> {
        &&& after.state == GameState::DrawBoard
        &&& after.timer == TimerState::Started(now)
        &&& after.board.all_concealed()
        &&& after.board.mine_total() == 16
    }
    &&& t matches Transition::DrawBoard(Command::Game(g)) ==> {
        &&& before.state != GameState::DrawBoard ==> after == before
        &&& before.state == GameState::DrawBoard ==> game_command_applied(before, after, g)
    }
    &&& !deals(t) && !(t matches Transition::DrawBoard(Command::Game(_))) ==> after == before
}

/// What a command text becomes in phase `state`: the transition to carry
/// out, or the error that refuses it.
pub open spec fn accepted(state: GameState, text: Seq<char>) -> Result<Transition, GameError> {
    match command_of(lower_of(trim_of(text))) {
        Ok(c) => transition_of(state, c),
        Err(e) => Err(e),
    }
}

/// The system command a transition carries, if any.
pub open spec fn system_command_of(t: Transition) -> Option<SystemCommand> {
    match t {
        Transition::Init(s) => Some(s),
        Transition::DrawBoard(Command::System(s)) => Some(s),
        Transition::DrawBoard(Command::Game(_)) => None,
        Transition::Win(s) => Some(s),
        Transition::Lose(s) => Some(s),
    }
}

/// The commands that deal a new round: start before the first round,
/// restart once a round was dealt. Any other start or restart is ignored.
pub open spec fn deals(t: Transition) -> bool {
    match t {
        Transition::Init(SystemCommand::Start) => true,
        Transition::DrawBoard(Command::System(SystemCommand::Restart)) => true,
        Transition::Win(SystemCommand::Restart) => true,
        Transition::Lose(SystemCommand::Restart) => true,
        _ => false,
    }
}

/// The commands that ask to leave the game, in any phase.
pub open spec fn exits(t: Transition) -> bool {
    system_command_of(t) == Some(SystemCommand::Exit)
}

/// A step leaves the counts alone, never conceals a tile, and keeps the
/// session in play, won or lost.
proof fn lemma_step_keeps(pre: GameView, post: GameView, x: int, y: int)
    requires
        pre.wf(),
        pre.state == GameState::DrawBoard,
        post.wf(),
        in_grid(x, y),
        pre.board.tile(x, y) == TileState::Concealed,
        stepped(pre, post, x, y),
    ensures
        post.state != GameState::Init,
        post.board.counts == pre.board.counts,
        forall|a: int, b: int|
            in_grid(a, b) && #[trigger] post.board.tile(a, b) == TileState::Concealed ==> pre.board.tile(a, b)
                == TileState::Concealed,
        post.state == GameState::Lose ==> pre.board.mine(x, y),
{
    let b = pre.board;
    if b.mine(x, y) {
        let d = b.with_tile(x, y, TileState::Detonated);
        lemma_mines_shown_keeps_safe(d, cell(x, y), TileState::Revealed);
        assert forall|a: int, b2: int|
            in_grid(a, b2) && #[trigger] post.board.tile(a, b2) == TileState::Concealed implies pre.board.tile(a, b2)
                == TileState::Concealed by {
            if a != x || b2 != y {
                assert(cell(a, b2) != cell(x, y));
                assert(d.tile(a, b2) == b.tile(a, b2));
            } else {
                assert(d.tile(x, y) == TileState::Detonated);
            }
        }
    } else {
        assert forall|a: int, b2: int|
            in_grid(a, b2) && #[trigger] post.board.tile(a, b2) == TileState::Concealed implies pre.board.tile(a, b2)
                == TileState::Concealed by {
            assert(post.board.tile(a, b2) == b.tile(a, b2) || b.tile(a, b2) == TileState::Concealed);
        }
    }
}

/// Putting on or taking off a flag keeps the session well-formed.
proof fn lemma_flag_change_keeps(before: GameView, after: GameView, x: int, y: int)
    requires
        before.wf(),
        before.state == GameState::DrawBoard,
        in_grid(x, y),
        after.board == before.board.flagged(x, y) || after.board == before.board.unflagged(x, y)
            || after.board == before.board.toggled(x, y),
        after.board.wf(),
        after.state == before.state,
        after.timer == before.timer,
    ensures
        after.wf(),
{
    let b = before.board;
    assert forall|a: int, c: int| in_grid(a, c) && (a != x || c != y) implies #[trigger] after.board.tile(a, c)
        == b.tile(a, c) by {
        assert(cell(a, c) != cell(x, y));
    }
    assert(after.board.tile(x, y) == b.tile(x, y) || ((b.tile(x, y) == TileState::Concealed || b.tile(x, y)
        == TileState::Flagged) && (after.board.tile(x, y) == TileState::Concealed || after.board.tile(x, y)
        == TileState::Flagged)));
    let (p, q) = choose|p: int, q: int| in_grid(p, q) && !#[trigger] b.mine(p, q) && b.tile(p, q) != TileState::Stepped;
    assert(after.board.mine(p, q) == b.mine(p, q));
    assert(after.board.tile(p, q) != TileState::Stepped);
}

/// Stepping on a concealed mine during play loses the round: that cell is
/// detonated, every other mine is shown, safe cells stay as they were and
/// the countdown is reset.
pub proof fn lemma_step_on_mine(before: GameView, after: GameView, x: int, y: int)
    requires
        before.wf(),
        before.state == GameState::DrawBoard,
        in_grid(x, y),
        before.board.tile(x, y) == TileState::Concealed,
        before.board.mine(x, y),
        stepped(before, after, x, y),
    ensures
        after.state == GameState::Lose,
        after.timer == TimerState::Reset,
        after.board.tile(x, y) == TileState::Detonated,
        forall|a: int, b: int|
            in_grid(a, b) && before.board.mine(a, b) && !(a == x && b == y) ==> #[trigger] after.board.tile(a, b)
                == TileState::Revealed,
        forall|a: int, b: int|
            in_grid(a, b) && !before.board.mine(a, b) ==> #[trigger] after.board.tile(a, b) == before.board.tile(a, b),
{
    let d = before.board.with_tile(x, y, TileState::Detonated);
    assert forall|a: int, b: int| in_grid(a, b) implies #[trigger] after.board.tile(a, b) == if before.board.mine(a, b)
        && !(a == x && b == y) {
        TileState::Revealed
    } else if a == x && b == y {
        TileState::Detonated
    } else {
        before.board.tile(a, b)
    } by {
        assert(0 <= cell(a, b) < 64);
        if a != x || b != y {
            assert(cell(a, b) != cell(x, y));
        }
    }
}

/// The countdown running out during play loses the round with every mine
/// shown as revealed, safe cells untouched and the countdown reset; a
/// second expiry changes nothing.
pub proof fn lemma_timer_expiry(g: GameView)
    requires
        g.wf(),
        g.state == GameState::DrawBoard,
    ensures
        g.expired().state == GameState::Lose,
        g.expired().timer == TimerState::Reset,
        forall|a: int, b: int|
            in_grid(a, b) && g.board.mine(a, b) ==> #[trigger] g.expired().board.tile(a, b) == TileState::Revealed,
        forall|a: int, b: int|
            in_grid(a, b) && !g.board.mine(a, b) ==> #[trigger] g.expired().board.tile(a, b) == g.board.tile(a, b),
        g.expired().expired() == g.expired(),
{
    assert forall|a: int, b: int| in_grid(a, b) implies #[trigger] g.expired().board.tile(a, b) == if g.board.mine(
        a,
        b,
    ) {
        TileState::Revealed
    } else {
        g.board.tile(a, b)
    } by {
        assert(0 <= cell(a, b) < 64);
    }
}

/// Once a round is dealt, the phase machine's win test (every concealed or
/// flagged tile hides a mine, and the round is not lost) agrees with the
/// board being won (every safe cell stepped on, no mine detonated), and
/// both hold exactly in the `Win` phase.
pub proof fn lemma_win_evaluation(g: GameView)
    requires
        g.wf(),
        g.state != GameState::Init,
    ensures
        (g.board.closed_are_mines() && g.state != GameState::Lose) == g.board.won(),
        g.board.won() == (g.state == GameState::Win),
{
    lemma_closed_are_mines_iff(g.board);
    if g.state == GameState::Win {
        assert(!g.board.any_detonated());
    }
}

} // verus!
