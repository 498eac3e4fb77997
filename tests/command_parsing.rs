use mnswpr::command::{parse, parse_normalized, normalize, Command, GameCommand, SystemCommand};
use mnswpr::errors::GameError;

#[test]
fn step_s22_is_row_one_column_one() {
    assert_eq!(parse("s22"), Ok(Command::Game(GameCommand::Step(1, 1))));
}

#[test]
fn zz9_is_invalid_argument() {
    assert_eq!(parse("zz9"), Err(GameError::InvalidArgument));
}

#[test]
fn restart_and_reset_parse_to_restart() {
    assert_eq!(parse("restart"), Ok(Command::System(SystemCommand::Restart)));
    assert_eq!(parse("reset"), Ok(Command::System(SystemCommand::Restart)));
}

#[test]
fn start_quit_exit_words() {
    assert_eq!(parse("start"), Ok(Command::System(SystemCommand::Start)));
    assert_eq!(parse("quit"), Ok(Command::System(SystemCommand::Exit)));
    assert_eq!(parse("exit"), Ok(Command::System(SystemCommand::Exit)));
}

#[test]
fn input_is_trimmed_and_lower_cased() {
    assert_eq!(parse("  START \n"), Ok(Command::System(SystemCommand::Start)));
    assert_eq!(parse("S22"), Ok(Command::Game(GameCommand::Step(1, 1))));
    assert_eq!(parse(" fa1 "), Ok(Command::Game(GameCommand::Flag(0, 0))));
    assert_eq!(normalize("  ReSeT  "), "reset".to_string());
}

#[test]
fn normalized_text_is_taken_as_it_stands() {
    assert_eq!(parse_normalized("S22"), Err(GameError::UnknownCommand));
    assert_eq!(parse_normalized(" s22"), Err(GameError::UnknownCommand));
    assert_eq!(parse_normalized("s22"), Ok(Command::Game(GameCommand::Step(1, 1))));
}

#[test]
fn every_command_code() {
    assert_eq!(parse("fa1"), Ok(Command::Game(GameCommand::Flag(0, 0))));
    assert_eq!(parse("uh8"), Ok(Command::Game(GameCommand::Unflag(7, 7))));
    assert_eq!(parse("tb3"), Ok(Command::Game(GameCommand::Toggle(2, 1))));
    assert_eq!(parse("nc4"), Ok(Command::Game(GameCommand::NeighboursStep(3, 2))));
    assert_eq!(parse("s81"), Ok(Command::Game(GameCommand::Step(0, 7))));
}

#[test]
fn column_letter_and_digit_agree() {
    assert_eq!(parse("sc5"), parse("s35"));
    assert_eq!(parse("sc5"), Ok(Command::Game(GameCommand::Step(4, 2))));
}

#[test]
fn unknown_code_with_good_coordinates() {
    assert_eq!(parse("x11"), Err(GameError::UnknownCommand));
}

#[test]
fn unknown_words_and_lengths() {
    assert_eq!(parse("hello"), Err(GameError::UnknownCommand));
    assert_eq!(parse(""), Err(GameError::UnknownCommand));
    assert_eq!(parse("s1"), Err(GameError::UnknownCommand));
    assert_eq!(parse("s111"), Err(GameError::UnknownCommand));
}

#[test]
fn out_of_range_coordinates() {
    assert_eq!(parse("s29"), Err(GameError::InvalidArgument));
    assert_eq!(parse("s20"), Err(GameError::InvalidArgument));
    assert_eq!(parse("si1"), Err(GameError::InvalidArgument));
    assert_eq!(parse("s2a"), Err(GameError::InvalidArgument));
    assert_eq!(parse("s91"), Err(GameError::InvalidArgument));
}

#[test]
fn from_chars_reads_code_column_row() {
    assert_eq!(GameCommand::from_chars('s', 'b', '3'), Ok(GameCommand::Step(2, 1)));
    assert_eq!(GameCommand::from_chars('q', 'b', '3'), Err(GameError::UnknownCommand));
    assert_eq!(GameCommand::from_chars('s', 'b', 'c'), Err(GameError::InvalidArgument));
}

#[test]
fn three_characters_not_three_bytes() {
    assert_eq!(parse("sé1"), Err(GameError::InvalidArgument));
    assert_eq!(parse("é1"), Err(GameError::UnknownCommand));
}
