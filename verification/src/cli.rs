//! The command line.
use vstd::prelude::*;

use crate::number;
use crate::number::parse_number;
use crate::text;
use crate::text::chars_of;

verus! {

/// What is wrong with the command line.
#[derive(Clone, Copy, Debug, PartialEq, Eq, Structural)]
pub enum UsageError {
    /// No port was given.
    MissingPort,
    /// More than a port and a directory were given.
    TooManyArguments,
    /// The port is no number from 0 to 65535.
    InvalidPort,
    /// Nothing can be found at the path of the directory.
    RootNotAccessible,
    /// What is found there is no directory.
    RootNotDirectory,
    /// The path of the directory cannot be resolved.
    RootNotCanonical,
}

impl UsageError {
    /// The error in words.
    pub open spec fn words(self) -> Seq<char> {
        match self {
            UsageError::MissingPort => "missing port argument"@,
            UsageError::TooManyArguments => "too many arguments"@,
            UsageError::InvalidPort => "invalid port"@,
            UsageError::RootNotAccessible => "root path does not exist or is not accessible"@,
            UsageError::RootNotDirectory => "root path is not a directory"@,
            UsageError::RootNotCanonical => "failed to canonicalize root path"@,
        }
    }

    /// The error in words.
    pub fn message(&self) -> (r: String)
        ensures
            r@ == self.words(),
    {
        match self {
            UsageError::MissingPort => "missing port argument".to_owned(),
            UsageError::TooManyArguments => "too many arguments".to_owned(),
            UsageError::InvalidPort => "invalid port".to_owned(),
            UsageError::RootNotAccessible => {
                "root path does not exist or is not accessible".to_owned()
            },
            UsageError::RootNotDirectory => "root path is not a directory".to_owned(),
            UsageError::RootNotCanonical => "failed to canonicalize root path".to_owned(),
        }
    }
}

/// What the program does with a command line that it does not understand.
pub struct Refusal {
    /// The lines to print to the standard error.
    pub lines: Vec<String>,
    /// The error to end with.
    pub error: String,
}

/// What the program does with a command line that it does not understand: it tells in two lines
/// what is wrong and how it is called, and ends with an error.
pub fn usage(error: &UsageError) -> (r: Refusal)
    ensures
        text::texts(r.lines@) == seq![
            "Error: "@ + error.words(),
            "Usage: relay <port> [root_path]"@,
        ],
        r.error@ == "invalid arguments"@,
{
    let mut first: String = "Error: ".to_owned();
    first.append(error.message().as_str());
    let mut lines: Vec<String> = Vec::new();
    lines.push(first);
    lines.push("Usage: relay <port> [root_path]".to_owned());
    proof {
        assert(text::texts(lines@) =~= seq![
            "Error: "@ + error.words(),
            "Usage: relay <port> [root_path]"@,
        ]);
    }
    Refusal { lines, error: "invalid arguments".to_owned() }
}

/// What the command line asks for.
pub struct Arguments {
    /// The port to listen at.
    pub port: u16,
    /// The directory to share, if any.
    pub root: Option<String>,
}

/// The port that a text stands for.
pub open spec fn port_of(arg: Seq<char>) -> Option<nat> {
    number::parsed(arg, 10, 65535)
}

/// Reads the command line, without the name of the program: a port, and then a directory or
/// nothing.
pub fn parse_arguments(args: &Vec<String>) -> (r: Result<Arguments, UsageError>)
    ensures
        args@.len() == 0 ==> r == Err::<Arguments, UsageError>(UsageError::MissingPort),
        args@.len() > 2 ==> r == Err::<Arguments, UsageError>(UsageError::TooManyArguments),
        1 <= args@.len() <= 2 ==> match port_of(args@[0]@) {
            None => r == Err::<Arguments, UsageError>(UsageError::InvalidPort),
            Some(port) => {
                &&& r matches Ok(asked)
                &&& asked.port == port
                &&& args@.len() == 1 ==> asked.root is None
                &&& args@.len() == 2 ==> (asked.root matches Some(root) && root@ == args@[1]@)
            },
        },
{
    if args.len() == 0 {
        return Err(UsageError::MissingPort);
    }
    if args.len() > 2 {
        return Err(UsageError::TooManyArguments);
    }
    let digits: Vec<char> = chars_of(args[0].as_str());
    match parse_number(digits.as_slice(), 10, 65535) {
        None => Err(UsageError::InvalidPort),
        Some(value) => {
            let root: Option<String> = if args.len() == 2 {
                Some(args[1].clone())
            } else {
                None
            };
            Ok(Arguments { port: value as u16, root })
        },
    }
}

/// Whether the directory to share is one: whether it was found to be a directory, if it was
/// found at all, and whether its path could be resolved.
pub fn check_root(is_dir: Option<bool>, canonical: bool) -> (r: Result<(), UsageError>)
    ensures
        r == (match is_dir {
            None => Err::<(), UsageError>(UsageError::RootNotAccessible),
            Some(false) => Err(UsageError::RootNotDirectory),
            Some(true) => if canonical {
                Ok(())
            } else {
                Err(UsageError::RootNotCanonical)
            },
        }),
{
    match is_dir {
        None => Err(UsageError::RootNotAccessible),
        Some(is_dir) => {
            if !is_dir {
                return Err(UsageError::RootNotDirectory);
            }
            if !canonical {
                return Err(UsageError::RootNotCanonical);
            }
            Ok(())
        },
    }
}

// ---------------------------------------------------------------------------
// Laws
// ---------------------------------------------------------------------------
/// Every port can be given: as it is written in decimal, it is read.
pub proof fn law_every_port_is_read(port: u16)
    ensures
        port_of(number::numeral(port as nat, 10)) == Some(port as nat),
{
    number::law_parsed_numeral(port as nat, 10, 65535);
}

/// A port is read digit by digit, in decimal, and is refused where it would be more than 65535 or
/// where anything but a digit stands in it, but for a plus sign in front.
pub proof fn law_port_digit_by_digit(s: Seq<char>, c: char)
    requires
        s.len() > 0,
        s != seq!['+'],
    ensures
        port_of(s.push(c)) == (if port_of(s) is Some && 48 <= c as int <= 57 && port_of(s)->0 * 10 + (
        c as int - 48) <= 65535 {
            Some((port_of(s)->0 * 10 + (c as int - 48)) as nat)
        } else {
            None
        }),
        port_of(seq![c]) == (if 48 <= c as int <= 57 {
            Some((c as int - 48) as nat)
        } else {
            None
        }),
        port_of(seq!['+', c]) == (if 48 <= c as int <= 57 {
            Some((c as int - 48) as nat)
        } else {
            None
        }),
        port_of(Seq::empty()) is None,
{
    number::law_parsed_digit_by_digit(s, c, 10, 65535);
    if c != '+' {
        number::law_parsed_one_digit(c, 10, 65535);
    } else {
        number::law_parsed_one_digit('0', 10, 65535);
        number::law_parsed_digit_by_digit(seq!['0'], c, 10, 65535);
        assert(seq!['+', c].skip(1) =~= seq!['+']);
        reveal_with_fuel(number::digits_value, 2);
        assert(seq!['+'].drop_last() =~= Seq::<char>::empty());
    }
}

} // verus!
