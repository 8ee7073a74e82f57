//! The placement command language.
//!
//! A command is a short run of characters without separators:
//!
//! ```text
//! command  = selector [ ratio [ span [ ratio [ span ] ] ] ]
//! selector = any character
//! ratio    = digit
//! span     = digit [ "-" digit ]
//! ```
//!
//! The selector names a screen, by number when it is a digit and by a
//! direction letter otherwise. The first ratio and span divide the screen into
//! columns and pick a range of them; the second pair does the same for rows.
//! Whatever a command leaves out keeps its default: one column, one row, the
//! first cell.

use vstd::prelude::*;
use vstd::string::*;

verus! {

/// Names the screen a command is aimed at.
#[derive(Debug, Clone, Copy, PartialEq, Eq, Structural)]
pub enum ScreenSelector {
    /// The screen with this number.
    Index(usize),
    /// The screen that lies in the direction this letter stands for.
    Char(char),
}

/// A parsed command: a screen, a grid laid over it, and a range of cells.
#[derive(Debug, Clone, Copy, PartialEq, Eq, Structural)]
pub struct MoveParameters {
    pub screen: ScreenSelector,
    /// Number of columns.
    pub x_ratio: i32,
    /// Number of rows.
    pub y_ratio: i32,
    /// First column of the range.
    pub x_start: i32,
    /// Last column of the range.
    pub x_end: i32,
    /// First row of the range.
    pub y_start: i32,
    /// Last row of the range.
    pub y_end: i32,
}

/// Why a command was turned down.
#[derive(Debug, Clone, Copy, PartialEq, Eq, Structural)]
pub enum ParseError {
    /// The command ended where a character had to follow.
    NoMoreItems,
    /// A digit was expected and something else was found.
    NotAnInteger,
    /// Characters follow a command that is already complete.
    NoMoreInputExpected,
}

impl ParseError {
    /// The error in words.
    pub open spec fn text(self) -> Seq<char> {
        match self {
            ParseError::NoMoreItems => "No more items"@,
            ParseError::NotAnInteger => "Next not an integer."@,
            ParseError::NoMoreInputExpected => "No more input expected."@,
        }
    }

    /// Says in words what is wrong with the command.
    pub fn message(&self) -> (m: &'static str)
        ensures
            m@ == self.text(),
    {
        match self {
            ParseError::NoMoreItems => "No more items",
            ParseError::NotAnInteger => "Next not an integer.",
            ParseError::NoMoreInputExpected => "No more input expected.",
        }
    }
}

/// Tells whether `c` is one of the decimal digits `0` to `9`.
pub open spec fn is_digit(c: char) -> bool {
    '0' <= c && c <= '9'
}

/// The number a decimal digit stands for.
pub open spec fn digit_value(c: char) -> int
    recommends
        is_digit(c),
{
    c as int - '0' as int
}

/// The digit expected at position `at` of `s`, or the reason there is none.
pub open spec fn digit_at(s: Seq<char>, at: int) -> Result<i32, ParseError> {
    if at >= s.len() {
        Err(ParseError::NoMoreItems)
    } else if is_digit(s[at]) {
        Ok(digit_value(s[at]) as i32)
    } else {
        Err(ParseError::NotAnInteger)
    }
}

/// The selector a command's first character stands for.
pub open spec fn selector_of(c: char) -> ScreenSelector {
    if is_digit(c) {
        ScreenSelector::Index(digit_value(c) as usize)
    } else {
        ScreenSelector::Char(c)
    }
}

/// The decimal digit that stands for `d`.
pub open spec fn digit_char(d: int) -> char
    recommends
        0 <= d <= 9,
{
    ('0' as int + d) as char
}

/// The character that stands for a selector at the head of a command.
pub open spec fn selector_char(screen: ScreenSelector) -> char {
    match screen {
        ScreenSelector::Index(n) => digit_char(n as int),
        ScreenSelector::Char(c) => c,
    }
}

/// Reads the character at `at` as a decimal digit.
pub fn next_integer(s: &str, at: usize) -> (r: Result<i32, ParseError>)
    ensures
        r == digit_at(s@, at as int),
{
    if at >= s.unicode_len() {
        return Err(ParseError::NoMoreItems);
    }
    let c = s.get_char(at);
    if '0' <= c && c <= '9' {
        Ok((c as u32 - '0' as u32) as i32)
    } else {
        Err(ParseError::NotAnInteger)
    }
}

impl MoveParameters {
    /// The parameters of a command that consists of its selector alone: the
    /// whole screen.
    pub open spec fn whole_screen(screen: ScreenSelector) -> MoveParameters {
        MoveParameters { screen, x_ratio: 1, y_ratio: 1, x_start: 0, x_end: 0, y_start: 0, y_end: 0 }
    }

    /// What a command means: the parameters it stands for, or the reason it
    /// is turned down. Fields are read from left to right; a command may stop
    /// after any complete field.
    pub open spec fn parse(s: Seq<char>) -> Result<MoveParameters, ParseError> {
        if s.len() == 0 {
            Err(ParseError::NoMoreItems)
        } else {
            Self::parse_x_ratio(s, Self::whole_screen(selector_of(s[0])))
        }
    }

    /// The number of columns, at position 1.
    pub open spec fn parse_x_ratio(s: Seq<char>, p: MoveParameters) -> Result<
        MoveParameters,
        ParseError,
    > {
        if s.len() <= 1 {
            Ok(p)
        } else {
            match digit_at(s, 1) {
                Err(e) => Err(e),
                Ok(d) => Self::parse_x_start(s, MoveParameters { x_ratio: d, ..p }),
            }
        }
    }

    /// The first column, at position 2. Until a last column is given, the
    /// range is that one column.
    pub open spec fn parse_x_start(s: Seq<char>, p: MoveParameters) -> Result<
        MoveParameters,
        ParseError,
    > {
        if s.len() <= 2 {
            Ok(p)
        } else {
            match digit_at(s, 2) {
                Err(e) => Err(e),
                Ok(d) => Self::parse_x_end(s, MoveParameters { x_start: d, x_end: d, ..p }),
            }
        }
    }

    /// The last column: a dash at position 3 and a digit after it, or nothing.
    pub open spec fn parse_x_end(s: Seq<char>, p: MoveParameters) -> Result<
        MoveParameters,
        ParseError,
    > {
        if s.len() <= 3 {
            Ok(p)
        } else if s[3] == '-' {
            match digit_at(s, 4) {
                Err(e) => Err(e),
                Ok(d) => Self::parse_y_ratio(s, 5, MoveParameters { x_end: d, ..p }),
            }
        } else {
            Self::parse_y_ratio(s, 3, p)
        }
    }

    /// The number of rows, at position `at`.
    pub open spec fn parse_y_ratio(s: Seq<char>, at: int, p: MoveParameters) -> Result<
        MoveParameters,
        ParseError,
    > {
        if s.len() <= at {
            Ok(p)
        } else {
            match digit_at(s, at) {
                Err(e) => Err(e),
                Ok(d) => Self::parse_y_start(s, at + 1, MoveParameters { y_ratio: d, ..p }),
            }
        }
    }

    /// The first row, at position `at`.
    pub open spec fn parse_y_start(s: Seq<char>, at: int, p: MoveParameters) -> Result<
        MoveParameters,
        ParseError,
    > {
        if s.len() <= at {
            Ok(p)
        } else {
            match digit_at(s, at) {
                Err(e) => Err(e),
                Ok(d) => Self::parse_y_end(s, at + 1, MoveParameters { y_start: d, y_end: d, ..p }),
            }
        }
    }

    /// The last row: a dash at position `at` and a digit after it, or
    /// nothing. The command ends here; whatever else follows is an error.
    pub open spec fn parse_y_end(s: Seq<char>, at: int, p: MoveParameters) -> Result<
        MoveParameters,
        ParseError,
    > {
        if s.len() <= at {
            Ok(p)
        } else if s[at] == '-' {
            match digit_at(s, at + 1) {
                Err(e) => Err(e),
                Ok(d) => if s.len() <= at + 2 {
                    Ok(MoveParameters { y_end: d, ..p })
                } else {
                    Err(ParseError::NoMoreInputExpected)
                },
            }
        } else {
            Err(ParseError::NoMoreInputExpected)
        }
    }

    /// Tells whether these parameters can be written as a command: every
    /// number is a single digit, and a selector by letter is no digit.
    pub open spec fn is_expressible(self) -> bool {
        &&& match self.screen {
            ScreenSelector::Index(n) => n <= 9,
            ScreenSelector::Char(c) => !is_digit(c),
        }
        &&& 0 <= self.x_ratio <= 9
        &&& 0 <= self.y_ratio <= 9
        &&& 0 <= self.x_start <= 9
        &&& 0 <= self.x_end <= 9
        &&& 0 <= self.y_start <= 9
        &&& 0 <= self.y_end <= 9
    }

    /// The command that spells these parameters out in full, both ranges
    /// with their dash.
    pub open spec fn spelled_out(self) -> Seq<char>
        recommends
            self.is_expressible(),
    {
        seq![
            selector_char(self.screen),
            digit_char(self.x_ratio as int),
            digit_char(self.x_start as int),
            '-',
            digit_char(self.x_end as int),
            digit_char(self.y_ratio as int),
            digit_char(self.y_start as int),
            '-',
            digit_char(self.y_end as int),
        ]
    }

    /// Parses a command.
    pub fn from_command(s: &str) -> (r: Result<MoveParameters, ParseError>)
        ensures
            r == Self::parse(s@),
    {
        let len = s.unicode_len();
        if len == 0 {
            return Err(ParseError::NoMoreItems);
        }
        let c = s.get_char(0);
        let screen = if '0' <= c && c <= '9' {
            ScreenSelector::Index((c as u32 - '0' as u32) as usize)
        } else {
            ScreenSelector::Char(c)
        };
        let mut params = MoveParameters {
            screen,
            x_ratio: 1,
            y_ratio: 1,
            x_start: 0,
            x_end: 0,
            y_start: 0,
            y_end: 0,
        };
        if len <= 1 {
            return Ok(params);
        }
        params.x_ratio = match next_integer(s, 1) {
            Ok(d) => d,
            Err(e) => return Err(e),
        };
        if len <= 2 {
            return Ok(params);
        }
        params.x_start = match next_integer(s, 2) {
            Ok(d) => d,
            Err(e) => return Err(e),
        };
        params.x_end = params.x_start;
        if len <= 3 {
            return Ok(params);
        }
        let mut at: usize = 3;
        if s.get_char(3) == '-' {
            params.x_end = match next_integer(s, 4) {
                Ok(d) => d,
                Err(e) => return Err(e),
            };
            at = 5;
        }
        if len <= at {
            return Ok(params);
        }
        params.y_ratio = match next_integer(s, at) {
            Ok(d) => d,
            Err(e) => return Err(e),
        };
        at = at + 1;
        if len <= at {
            return Ok(params);
        }
        params.y_start = match next_integer(s, at) {
            Ok(d) => d,
            Err(e) => return Err(e),
        };
        params.y_end = params.y_start;
        at = at + 1;
        if len <= at {
            return Ok(params);
        }
        if s.get_char(at) != '-' {
            return Err(ParseError::NoMoreInputExpected);
        }
        params.y_end = match next_integer(s, at + 1) {
            Ok(d) => d,
            Err(e) => return Err(e),
        };
        if len <= at + 2 {
            Ok(params)
        } else {
            Err(ParseError::NoMoreInputExpected)
        }
    }
}

/// The grammar, said at once: a selector, then as many of the fields as the
/// command cares to give, each a digit, the start of either range followed
/// by a dash and a digit or by neither, and nothing after the last row.
pub open spec fn is_command(s: Seq<char>) -> bool {
    // Where the fields of the rows begin: behind the range of columns.
    let rows = if s.len() > 3 && s[3] == '-' {
        5
    } else {
        3
    };
    &&& s.len() >= 1
    &&& s.len() > 1 ==> is_digit(s[1])
    &&& s.len() > 2 ==> is_digit(s[2])
    &&& rows == 5 ==> s.len() > 4 && is_digit(s[4])
    &&& s.len() > rows ==> is_digit(s[rows])
    &&& s.len() > rows + 1 ==> is_digit(s[rows + 1])
    &&& s.len() > rows + 2 ==> s[rows + 2] == '-' && s.len() == rows + 4 && is_digit(s[rows + 3])
}

/// The strings that parse are the commands of the grammar, all of them and
/// no others.
pub proof fn lemma_parse_accepts_the_grammar(s: Seq<char>)
    ensures
        MoveParameters::parse(s) is Ok <==> is_command(s),
{
}

/// Parsing never stops half way: a command either yields parameters in which
/// every field is a single digit, those it does not mention at their
/// defaults, or it is turned down for one of the three reasons, whatever the
/// string.
pub proof fn lemma_parse_is_total(s: Seq<char>)
    ensures
        match MoveParameters::parse(s) {
            Ok(p) => {
                &&& p.is_expressible()
                &&& p.screen == selector_of(s[0])
                &&& s.len() <= 1 ==> p == MoveParameters::whole_screen(p.screen)
                &&& s.len() <= 3 ==> p.y_ratio == 1 && p.y_start == 0 && p.y_end == 0
            },
            Err(e) => {
                ||| e == ParseError::NoMoreItems
                ||| e == ParseError::NotAnInteger
                ||| e == ParseError::NoMoreInputExpected
            },
        },
{
}

/// A command is accepted only if it is at most nine characters long.
pub proof fn lemma_accepted_commands_are_short(s: Seq<char>)
    requires
        MoveParameters::parse(s) is Ok,
    ensures
        1 <= s.len() <= 9,
{
}

/// Every set of parameters that can be written as a command is the meaning
/// of the command that spells it out.
pub proof fn lemma_spelled_out_parses_back(p: MoveParameters)
    requires
        p.is_expressible(),
    ensures
        MoveParameters::parse(p.spelled_out()) == Ok::<MoveParameters, ParseError>(p),
{
}

} // verus!
