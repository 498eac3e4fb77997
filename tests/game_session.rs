use mnswpr::board::{Board, TileState, SIDE};
use mnswpr::command::{Command, GameCommand, SystemCommand};
use mnswpr::errors::GameError;
use mnswpr::exec::{GameCommandExecutor, GameState, TimerState, Transition, TIME_LIMIT};
use mnswpr::store::GameStore;

fn layout(mines: &[(usize, usize)]) -> Vec<bool> {
    let mut v = vec![false; 64];
    for &(x, y) in mines {
        v[x * 8 + y] = true;
    }
    v
}

fn dealt(mines: &[(usize, usize)], now: u64) -> GameCommandExecutor {
    let mut g = GameCommandExecutor::new();
    g.start_round(Board::with_mines(&layout(mines)), now);
    g
}

#[test]
fn new_session_waits_for_start() {
    let g = GameCommandExecutor::new();
    assert_eq!(*g.current_state(), GameState::Init);
    assert_eq!(g.timer_state(), TimerState::Reset);
}

#[test]
fn step_before_start_is_refused() {
    let g = GameCommandExecutor::new();
    assert_eq!(g.parse_command("s22"), Err(GameError::InvalidArgument));
}

#[test]
fn init_accepts_every_system_command() {
    let g = GameCommandExecutor::new();
    assert_eq!(g.parse_command("start"), Ok(Transition::Init(SystemCommand::Start)));
    assert_eq!(g.parse_command("restart"), Ok(Transition::Init(SystemCommand::Restart)));
    assert_eq!(g.parse_command("reset"), Ok(Transition::Init(SystemCommand::Restart)));
    assert_eq!(g.parse_command("exit"), Ok(Transition::Init(SystemCommand::Exit)));
    assert_eq!(g.parse_command("quit"), Ok(Transition::Init(SystemCommand::Exit)));
    assert_eq!(g.parse_command("bogus"), Err(GameError::UnknownCommand));
}

#[test]
fn restart_before_the_first_round_is_ignored() {
    let mut g = GameCommandExecutor::new();
    let t = g.parse_command("restart").unwrap();
    assert!(!g.exec(&t, 3));
    assert_eq!(*g.current_state(), GameState::Init);
    assert_eq!(g.timer_state(), TimerState::Reset);
}

#[test]
fn start_during_play_is_ignored() {
    let mut g = dealt(&[(0, 0)], 0);
    g.exec_game_command(&GameCommand::Flag(4, 4));
    let t = g.parse_command("start").unwrap();
    assert_eq!(t, Transition::DrawBoard(Command::System(SystemCommand::Start)));
    assert!(!g.exec(&t, 9));
    assert_eq!(*g.current_state(), GameState::DrawBoard);
    assert_eq!(g.timer_state(), TimerState::Started(0));
    assert_eq!(g.board().tile(4, 4), TileState::Flagged);
}

#[test]
fn start_after_a_round_is_ignored() {
    let mut g = dealt(&[(0, 0)], 0);
    g.exec_game_command(&GameCommand::Step(0, 0));
    let t = g.parse_command("start").unwrap();
    assert_eq!(t, Transition::Lose(SystemCommand::Start));
    assert!(!g.exec(&t, 9));
    assert_eq!(*g.current_state(), GameState::Lose);
    assert_eq!(g.board().tile(0, 0), TileState::Detonated);
    let mut w = dealt(&[(7, 7)], 0);
    w.exec_game_command(&GameCommand::Step(0, 0));
    assert!(!w.exec(&Transition::Win(SystemCommand::Start), 9));
    assert_eq!(*w.current_state(), GameState::Win);
}

#[test]
fn start_deals_a_board_and_starts_the_timer() {
    let mut g = GameCommandExecutor::new();
    let t = g.parse_command("start").unwrap();
    assert!(!g.exec(&t, 1000));
    assert_eq!(*g.current_state(), GameState::DrawBoard);
    assert_eq!(g.timer_state(), TimerState::Started(1000));
    let mut mines = 0;
    for x in 0..SIDE {
        for y in 0..SIDE {
            assert_eq!(g.board().tile(x, y), TileState::Concealed);
            if g.board().is_mine(x, y) {
                mines += 1;
            }
        }
    }
    assert_eq!(mines, 16);
}

#[test]
fn play_accepts_game_commands_restart_and_exit() {
    let g = dealt(&[(0, 0)], 0);
    assert_eq!(
        g.parse_command("s22"),
        Ok(Transition::DrawBoard(Command::Game(GameCommand::Step(1, 1))))
    );
    assert_eq!(
        g.parse_command("restart"),
        Ok(Transition::DrawBoard(Command::System(SystemCommand::Restart)))
    );
    assert_eq!(
        g.parse_command("quit"),
        Ok(Transition::DrawBoard(Command::System(SystemCommand::Exit)))
    );
    assert_eq!(g.parse_command("s29"), Err(GameError::InvalidArgument));
}

#[test]
fn exit_is_reported_and_changes_nothing() {
    let mut g = dealt(&[(0, 0)], 7);
    let t = g.parse_command("exit").unwrap();
    assert!(g.exec(&t, 50));
    assert_eq!(*g.current_state(), GameState::DrawBoard);
    assert_eq!(g.timer_state(), TimerState::Started(7));
    let mut fresh = GameCommandExecutor::new();
    let t = fresh.parse_command("quit").unwrap();
    assert!(fresh.exec(&t, 0));
    assert_eq!(*fresh.current_state(), GameState::Init);
}

#[test]
fn stepping_a_mine_loses_the_round() {
    let mut g = dealt(&[(0, 0), (7, 7)], 10);
    let t = g.parse_command("sa1").unwrap();
    assert_eq!(t, Transition::DrawBoard(Command::Game(GameCommand::Step(0, 0))));
    assert!(!g.exec(&t, 20));
    assert_eq!(*g.current_state(), GameState::Lose);
    assert_eq!(g.timer_state(), TimerState::Reset);
    assert_eq!(g.board().tile(0, 0), TileState::Detonated);
    assert_eq!(g.board().tile(7, 7), TileState::Revealed);
    assert_eq!(g.board().tile(3, 3), TileState::Concealed);
}

#[test]
fn lost_round_accepts_only_system_commands() {
    let mut g = dealt(&[(0, 0)], 0);
    g.exec_game_command(&GameCommand::Step(0, 0));
    assert_eq!(*g.current_state(), GameState::Lose);
    assert_eq!(g.parse_command("s11"), Err(GameError::InvalidArgument));
    assert_eq!(g.parse_command("start"), Ok(Transition::Lose(SystemCommand::Start)));
    assert_eq!(g.parse_command("quit"), Ok(Transition::Lose(SystemCommand::Exit)));
    let t = g.parse_command("restart").unwrap();
    assert_eq!(t, Transition::Lose(SystemCommand::Restart));
    g.exec(&t, 99);
    assert_eq!(*g.current_state(), GameState::DrawBoard);
    assert_eq!(g.timer_state(), TimerState::Started(99));
    assert_eq!(g.board().tile(0, 0), TileState::Concealed);
}

#[test]
fn opening_the_last_safe_cell_wins() {
    let mut g = dealt(&[(7, 7)], 0);
    g.exec_game_command(&GameCommand::Step(0, 0));
    assert_eq!(*g.current_state(), GameState::Win);
    assert_eq!(g.timer_state(), TimerState::Reset);
    assert!(g.board().is_won());
    assert_eq!(g.parse_command("s11"), Err(GameError::InvalidArgument));
    assert_eq!(g.parse_command("reset"), Ok(Transition::Win(SystemCommand::Restart)));
}

#[test]
fn game_commands_outside_play_change_nothing() {
    let mut g = dealt(&[(0, 0)], 0);
    g.exec_game_command(&GameCommand::Step(0, 0));
    g.exec_game_command(&GameCommand::Flag(5, 5));
    assert_eq!(g.board().tile(5, 5), TileState::Concealed);
    let mut fresh = GameCommandExecutor::new();
    fresh.exec_game_command(&GameCommand::Step(1, 1));
    assert_eq!(*fresh.current_state(), GameState::Init);
}

#[test]
fn toggling_twice_returns_to_concealed() {
    let mut g = dealt(&[(0, 0)], 0);
    g.exec_game_command(&GameCommand::Toggle(4, 2));
    assert_eq!(g.board().tile(4, 2), TileState::Flagged);
    g.exec_game_command(&GameCommand::Toggle(4, 2));
    assert_eq!(g.board().tile(4, 2), TileState::Concealed);
}

#[test]
fn flag_and_unflag_commands() {
    let mut g = dealt(&[(0, 0)], 0);
    g.exec_game_command(&GameCommand::Flag(0, 0));
    assert_eq!(g.board().tile(0, 0), TileState::Flagged);
    g.exec_game_command(&GameCommand::Step(0, 0));
    assert_eq!(*g.current_state(), GameState::DrawBoard);
    g.exec_game_command(&GameCommand::Unflag(0, 0));
    assert_eq!(g.board().tile(0, 0), TileState::Concealed);
    g.exec_game_command(&GameCommand::Noop);
    assert_eq!(g.board().tile(0, 0), TileState::Concealed);
}

#[test]
fn neighbours_step_on_a_concealed_cell_does_nothing() {
    let mut g = dealt(&[(0, 0)], 0);
    g.exec_game_command(&GameCommand::NeighboursStep(1, 1));
    assert_eq!(g.board().tile(1, 2), TileState::Concealed);
    assert_eq!(*g.current_state(), GameState::DrawBoard);
}

#[test]
fn neighbours_step_onto_a_mine_loses() {
    let mut g = dealt(&[(0, 0), (7, 7)], 0);
    g.exec_game_command(&GameCommand::Step(1, 1));
    assert_eq!(g.board().tile(1, 1), TileState::Stepped);
    assert_eq!(g.board().tile(1, 2), TileState::Concealed);
    g.exec_game_command(&GameCommand::NeighboursStep(1, 1));
    assert_eq!(*g.current_state(), GameState::Lose);
    assert_eq!(g.board().tile(0, 0), TileState::Detonated);
    assert_eq!(g.board().tile(0, 1), TileState::Concealed);
    assert_eq!(g.board().tile(2, 2), TileState::Concealed);
    assert_eq!(g.timer_state(), TimerState::Reset);
    assert_eq!(g.board().tile(7, 7), TileState::Revealed);
}

#[test]
fn neighbours_step_around_a_flag_wins() {
    let mut g = dealt(&[(0, 0), (7, 7)], 0);
    g.exec_game_command(&GameCommand::Step(1, 1));
    g.exec_game_command(&GameCommand::Flag(0, 0));
    g.exec_game_command(&GameCommand::NeighboursStep(1, 1));
    assert_eq!(g.board().tile(0, 0), TileState::Flagged);
    assert_eq!(g.board().tile(0, 1), TileState::Stepped);
    assert_eq!(g.board().tile(6, 6), TileState::Stepped);
    assert_eq!(*g.current_state(), GameState::Win);
}

#[test]
fn timer_expiry_loses_and_shows_mines_once() {
    let mut g = dealt(&[(0, 0), (3, 4)], 0);
    g.exec_game_command(&GameCommand::Flag(3, 4));
    g.timer_expired();
    assert_eq!(*g.current_state(), GameState::Lose);
    assert_eq!(g.timer_state(), TimerState::Reset);
    assert_eq!(g.board().tile(0, 0), TileState::Revealed);
    assert_eq!(g.board().tile(3, 4), TileState::Revealed);
    assert_eq!(g.board().tile(5, 5), TileState::Concealed);
    g.timer_expired();
    assert_eq!(*g.current_state(), GameState::Lose);
    assert_eq!(g.board().tile(0, 0), TileState::Revealed);
}

#[test]
fn timer_expiry_without_a_round_does_nothing() {
    let mut g = GameCommandExecutor::new();
    g.timer_expired();
    assert_eq!(*g.current_state(), GameState::Init);
}

#[test]
fn timer_checkin_acts_only_at_zero() {
    let mut g = dealt(&[(0, 0)], 0);
    g.timer_checkin(5);
    assert_eq!(*g.current_state(), GameState::DrawBoard);
    g.timer_checkin(0);
    assert_eq!(*g.current_state(), GameState::Lose);
    assert_eq!(g.board().tile(0, 0), TileState::Revealed);
}

#[test]
fn remaining_seconds_count_down_from_the_start() {
    let g = dealt(&[(0, 0)], 100);
    assert_eq!(g.remaining_seconds(100), TIME_LIMIT);
    assert_eq!(g.remaining_seconds(130), TIME_LIMIT - 30);
    assert_eq!(g.remaining_seconds(50), TIME_LIMIT);
    assert_eq!(g.remaining_seconds(100 + TIME_LIMIT), 0);
    assert_eq!(g.remaining_seconds(u64::MAX), 0);
    assert_eq!(GameCommandExecutor::new().remaining_seconds(5), TIME_LIMIT);
}

#[test]
fn start_button_deals_from_any_phase() {
    let mut g = dealt(&[(0, 0)], 0);
    g.exec_game_command(&GameCommand::Step(0, 0));
    assert!(!g.exec(&Transition::Init(SystemCommand::Start), 42));
    assert_eq!(*g.current_state(), GameState::DrawBoard);
    assert_eq!(g.timer_state(), TimerState::Started(42));
}

#[test]
fn store_keeps_errors_and_history() {
    let mut s = GameStore::new();
    assert_eq!(s.parse_command("bogus", 0), Err(GameError::UnknownCommand));
    assert_eq!(s.parse_command("s11", 0), Err(GameError::InvalidArgument));
    assert_eq!(s.errors(), &vec![GameError::UnknownCommand, GameError::InvalidArgument]);
    assert_eq!(s.parse_command(" START ", 5), Ok(false));
    assert_eq!(*s.game().current_state(), GameState::DrawBoard);
    assert_eq!(s.cmd_history(), &vec!["bogus".to_string(), "s11".to_string(), "start".to_string()]);
    assert_eq!(s.parse_command("Fb2", 6), Ok(false));
    assert_eq!(*s.cmd(), GameCommand::Flag(1, 1));
    assert_eq!(s.game().board().tile(1, 1), TileState::Flagged);
    assert_eq!(s.parse_command("exit", 7), Ok(true));
    assert_eq!(*s.cmd(), GameCommand::Noop);
    assert_eq!(s.errors().len(), 2);
}

#[test]
fn store_checks_clicks_against_the_phase() {
    let mut s = GameStore::new();
    assert_eq!(s.submit_game_command(GameCommand::Toggle(2, 2), 0), Err(GameError::InvalidArgument));
    assert_eq!(s.errors(), &vec![GameError::InvalidArgument]);
    s.parse_command("start", 0).unwrap();
    assert_eq!(s.submit_game_command(GameCommand::Toggle(2, 2), 1), Ok(()));
    assert_eq!(s.game().board().tile(2, 2), TileState::Flagged);
    assert_eq!(s.submit_game_command(GameCommand::Step(8, 0), 2), Err(GameError::InvalidArgument));
    assert_eq!(s.submit_game_command(GameCommand::Flag(0, 9), 2), Err(GameError::InvalidArgument));
    assert_eq!(s.errors().len(), 3);
    assert_eq!(*s.game().current_state(), GameState::DrawBoard);
}

#[test]
fn store_tick_expires_the_round() {
    let mut s = GameStore::new();
    s.parse_command("start", 1000).unwrap();
    assert_eq!(s.tick(1100), TIME_LIMIT - 100);
    assert_eq!(*s.game().current_state(), GameState::DrawBoard);
    assert_eq!(s.tick(1000 + TIME_LIMIT), 0);
    assert_eq!(*s.game().current_state(), GameState::Lose);
    assert_eq!(s.tick(5000), TIME_LIMIT);
    assert_eq!(*s.game().current_state(), GameState::Lose);
}

#[test]
fn current_seconds_rounds_milliseconds_down() {
    assert_eq!(mnswpr::current_seconds(0), 0);
    assert_eq!(mnswpr::current_seconds(999), 0);
    assert_eq!(mnswpr::current_seconds(1_700_000_123_456), 1_700_000_123);
}

#[test]
fn neighbours_step_from_a_flag_does_nothing() {
    let mut g = dealt(&[(0, 0)], 0);
    g.exec_game_command(&GameCommand::Flag(1, 1));
    g.exec_game_command(&GameCommand::NeighboursStep(1, 1));
    assert_eq!(g.board().tile(0, 0), TileState::Concealed);
    assert_eq!(g.board().tile(1, 2), TileState::Concealed);
    assert_eq!(*g.current_state(), GameState::DrawBoard);
}
