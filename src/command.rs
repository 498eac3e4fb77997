use vstd::prelude::*;

use crate::errors::GameError;

verus! {

/// Commands that drive the game phase rather than the board.
#[derive(Clone, Copy, Debug, PartialEq, Eq, Structural, Hash)]
pub enum SystemCommand {
    Start,
    Restart,
    Exit,
}

/// A board command; coordinates are `(row, column)`, both counted from 0.
#[derive(Clone, Copy, Debug, Default, PartialEq, Eq, Structural, Hash)]
pub enum GameCommand {
    #[default]
    Noop,
    Step(usize, usize),
    NeighboursStep(usize, usize),
    Flag(usize, usize),
    Unflag(usize, usize),
    Toggle(usize, usize),
}

/// A parsed command of either kind.
#[derive(Clone, Copy, Debug, PartialEq, Eq, Structural, Hash)]
pub enum Command {
    System(SystemCommand),
    Game(GameCommand),
}

/// The column a coordinate character names: `a`..`h` or `1`..`8`.
pub open spec fn column_of(c: char) -> Option<int> {
    if 'a' <= c && c <= 'h' {
        Some(c as int - 'a' as int)
    } else if '1' <= c && c <= '8' {
        Some(c as int - '1' as int)
    } else {
        None
    }
}

/// The row a coordinate character names: `1`..`8`.
pub open spec fn row_of(c: char) -> Option<int> {
    if '1' <= c && c <= '8' {
        Some(c as int - '1' as int)
    } else {
        None
    }
}

/// The meaning of a three-character command: a command code, then the
/// column, then the row.
pub open spec fn game_command_of(code: char, c1: char, c2: char) -> Result<GameCommand, GameError> {
    match (column_of(c1), row_of(c2)) {
        (Some(col), Some(row)) => {
            let (r, c) = (row as usize, col as usize);
            if code == 's' {
                Ok(GameCommand::Step(r, c))
            } else if code == 'f' {
                Ok(GameCommand::Flag(r, c))
            } else if code == 'u' {
                Ok(GameCommand::Unflag(r, c))
            } else if code == 't' {
                Ok(GameCommand::Toggle(r, c))
            } else if code == 'n' {
                Ok(GameCommand::NeighboursStep(r, c))
            } else {
                Err(GameError::UnknownCommand)
            }
        },
        _ => Err(GameError::InvalidArgument),
    }
}

/// The meaning of a lower-cased, trimmed command text.
pub open spec fn command_of(s: Seq<char>) -> Result<Command, GameError> {
    if s == "restart"@ || s == "reset"@ {
        Ok(Command::System(SystemCommand::Restart))
    } else if s == "start"@ {
        Ok(Command::System(SystemCommand::Start))
    } else if s == "quit"@ || s == "exit"@ {
        Ok(Command::System(SystemCommand::Exit))
    } else if s.len() == 3 {
        match game_command_of(s[0], s[1], s[2]) {
            Ok(g) => Ok(Command::Game(g)),
            Err(e) => Err(e),
        }
    } else {
        Err(GameError::UnknownCommand)
    }
}

impl GameCommand {
    /// The cell the command names, if any.
    pub open spec fn target(self) -> Option<(int, int)> {
        match self {
            GameCommand::Noop => None,
            GameCommand::Step(x, y) => Some((x as int, y as int)),
            GameCommand::NeighboursStep(x, y) => Some((x as int, y as int)),
            GameCommand::Flag(x, y) => Some((x as int, y as int)),
            GameCommand::Unflag(x, y) => Some((x as int, y as int)),
            GameCommand::Toggle(x, y) => Some((x as int, y as int)),
        }
    }

    /// Every coordinate the command carries lies on the board.
    pub open spec fn on_board(self) -> bool {
        match self.target() {
            Some((x, y)) => 0 <= x < 8 && 0 <= y < 8,
            None => true,
        }
    }

    /// Whether every coordinate of the command lies on the board.
    pub fn is_on_board(&self) -> (r: bool)
        ensures
            r == self.on_board(),
    {
        match *self {
            GameCommand::Noop => true,
            GameCommand::Step(x, y) => x < 8 && y < 8,
            GameCommand::NeighboursStep(x, y) => x < 8 && y < 8,
            GameCommand::Flag(x, y) => x < 8 && y < 8,
            GameCommand::Unflag(x, y) => x < 8 && y < 8,
            GameCommand::Toggle(x, y) => x < 8 && y < 8,
        }
    }

    /// Reads a command code followed by a column and a row character.
    pub fn from_chars(code: char, c1: char, c2: char) -> (r: Result<GameCommand, GameError>)
        ensures
            r == game_command_of(code, c1, c2),
            r matches Ok(g) ==> g.on_board(),
    {
        let col: usize = if 'a' <= c1 && c1 <= 'h' {
            (c1 as u32 - 'a' as u32) as usize
        } else if '1' <= c1 && c1 <= '8' {
            (c1 as u32 - '1' as u32) as usize
        } else {
            return Err(GameError::InvalidArgument);
        };
        let row: usize = if '1' <= c2 && c2 <= '8' {
            (c2 as u32 - '1' as u32) as usize
        } else {
            return Err(GameError::InvalidArgument);
        };
        if code == 's' {
            Ok(GameCommand::Step(row, col))
        } else if code == 'f' {
            Ok(GameCommand::Flag(row, col))
        } else if code == 'u' {
            Ok(GameCommand::Unflag(row, col))
        } else if code == 't' {
            Ok(GameCommand::Toggle(row, col))
        } else if code == 'n' {
            Ok(GameCommand::NeighboursStep(row, col))
        } else {
            Err(GameError::UnknownCommand)
        }
    }
}

/// The characters of the Unicode `White_Space` property, those that
/// `char::is_whitespace` accepts.
pub open spec fn is_white_space(c: char) -> bool {
    ||| '\u{9}' <= c <= '\u{D}'
    ||| c == ' '
    ||| c == '\u{85}'
    ||| c == '\u{A0}'
    ||| c == '\u{1680}'
    ||| '\u{2000}' <= c <= '\u{200A}'
    ||| c == '\u{2028}'
    ||| c == '\u{2029}'
    ||| c == '\u{202F}'
    ||| c == '\u{205F}'
    ||| c == '\u{3000}'
}

/// The text without its leading white space.
pub open spec fn trim_start_of(s: Seq<char>) -> Seq<char>
    decreases s.len(),
{
    if s.len() > 0 && is_white_space(s[0]) {
        trim_start_of(s.drop_first())
    } else {
        s
    }
}

/// The text without its trailing white space.
pub open spec fn trim_end_of(s: Seq<char>) -> Seq<char>
    decreases s.len(),
{
    if s.len() > 0 && is_white_space(s.last()) {
        trim_end_of(s.drop_last())
    } else {
        s
    }
}

/// The text without leading and trailing white space.
pub open spec fn trim_of(s: Seq<char>) -> Seq<char> {
    trim_end_of(trim_start_of(s))
}

/// What `str::to_lowercase` makes of a text.
pub uninterp spec fn lower_of(s: Seq<char>) -> Seq<char>;

/// Whether `c` is a white-space character.
fn white_space(c: char) -> (r: bool)
    ensures
        r == is_white_space(c),
{
    ('\u{9}' <= c && c <= '\u{D}') || c == ' ' || c == '\u{85}' || c == '\u{A0}' || c == '\u{1680}' || (
    '\u{2000}' <= c && c <= '\u{200A}') || c == '\u{2028}' || c == '\u{2029}' || c == '\u{202F}' || c
        == '\u{205F}' || c == '\u{3000}'
}

/// The text without leading and trailing white space.
fn trimmed(s: &str) -> (r: &str)
    ensures
        r@ == trim_of(s@),
{
    let n = s.unicode_len();
    let mut i: usize = 0;
    assert(s@.subrange(0, n as int) =~= s@);
    while i < n && white_space(s.get_char(i))
        invariant
            n == s@.len(),
            i <= n,
            trim_start_of(s@) == trim_start_of(s@.subrange(i as int, n as int)),
        decreases n - i,
    {
        assert(s@.subrange(i as int, n as int).drop_first() =~= s@.subrange(i + 1, n as int));
        i += 1;
    }
    assert(trim_start_of(s@.subrange(i as int, n as int)) == s@.subrange(i as int, n as int));
    let mut j: usize = n;
    while j > i && white_space(s.get_char(j - 1))
        invariant
            n == s@.len(),
            i <= j <= n,
            trim_end_of(s@.subrange(i as int, n as int)) == trim_end_of(s@.subrange(i as int, j as int)),
        decreases j,
    {
        assert(s@.subrange(i as int, j as int).drop_last() =~= s@.subrange(i as int, j - 1));
        j -= 1;
    }
    assert(trim_end_of(s@.subrange(i as int, j as int)) == s@.subrange(i as int, j as int));
    s.substring_char(i, j)
}

/// Relies on `str::to_lowercase`: the lower-case form of the text, which
/// depends on the text alone.
#[verifier::external_body]
fn lowercase(s: &str) -> (r: String)
    ensures
        r@ == lower_of(s@),
{
    s.to_lowercase()
}

/// Whether two texts hold the same characters.
fn text_is(s: &str, w: &str) -> (r: bool)
    ensures
        r == (s@ == w@),
{
    let n = s.unicode_len();
    if n != w.unicode_len() {
        return false;
    }
    let mut i: usize = 0;
    while i < n
        invariant
            n == s@.len(),
            n == w@.len(),
            i <= n,
            forall|k: int| 0 <= k < i ==> s@[k] == w@[k],
        decreases n - i,
    {
        if s.get_char(i) != w.get_char(i) {
            return false;
        }
        i += 1;
    }
    assert(s@ =~= w@);
    true
}

/// Reads a command text that is already trimmed and lower-cased.
pub fn parse_normalized(s: &str) -> (r: Result<Command, GameError>)
    ensures
        r == command_of(s@),
        r matches Ok(Command::Game(g)) ==> g.on_board(),
{
    if text_is(s, "restart") || text_is(s, "reset") {
        Ok(Command::System(SystemCommand::Restart))
    } else if text_is(s, "start") {
        Ok(Command::System(SystemCommand::Start))
    } else if text_is(s, "quit") || text_is(s, "exit") {
        Ok(Command::System(SystemCommand::Exit))
    } else if s.unicode_len() == 3 {
        match GameCommand::from_chars(s.get_char(0), s.get_char(1), s.get_char(2)) {
            Ok(g) => Ok(Command::Game(g)),
            Err(e) => Err(e),
        }
    } else {
        Err(GameError::UnknownCommand)
    }
}

/// A command text trimmed and lower-cased.
pub fn normalize(input: &str) -> (r: String)
    ensures
        r@ == lower_of(trim_of(input@)),
{
    lowercase(trimmed(input))
}

/// Reads a command text: it is trimmed and lower-cased, then matched
/// against the command words and the three-character board commands.
pub fn parse(input: &str) -> (r: Result<Command, GameError>)
    ensures
        r == command_of(lower_of(trim_of(input@))),
        r matches Ok(Command::Game(g)) ==> g.on_board(),
{
    let text = normalize(input);
    parse_normalized(text.as_str())
}

} // verus!
