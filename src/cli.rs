//! Command-line arguments: `[-p|--port N] [-h|--help] [path]`.

use vstd::prelude::*;
use crate::numeric::{decimal_value, is_decimal_within, parse_u64};

verus! {

/// Exit code for a help request.
pub const EXIT_HELP: i32 = 0;

/// Exit code for a malformed flag, or a flag without its value.
pub const EXIT_BAD_FLAG: i32 = 2;

/// Exit code for an invalid port or a second path.
pub const EXIT_BAD_ARGUMENT: i32 = 3;

/// Parsed arguments with `u16::MAX` as the default port.
#[derive(Debug)]
pub struct Args {
    pub path: Option<Vec<u8>>,
    pub port: u16,
}

/// Parsed arguments with 8080 as the default port.
#[derive(Debug)]
pub struct Cli {
    pub port: u16,
    pub path: Option<Vec<u8>>,
}

/// `-h` after the leading `-`: `h` or `-help`.
pub open spec fn is_help_flag(f: Seq<u8>) -> bool {
    f == seq![104u8] || f == seq![45u8, 104u8, 101u8, 108u8, 112u8]
}

/// `-p` after the leading `-`: `p` or `-port`.
pub open spec fn is_port_flag(f: Seq<u8>) -> bool {
    f == seq![112u8] || f == seq![45u8, 112u8, 111u8, 114u8, 116u8]
}

/// A port value: digits for a number in `1..=65535`.
pub open spec fn is_port_text(v: Seq<u8>) -> bool {
    is_decimal_within(v, u16::MAX as nat) && decimal_value(v) > 0
}

/// The outcome of reading `args` from position `i`, with the path and port
/// found so far.
pub open spec fn parse_from(
    args: Seq<Seq<u8>>,
    i: int,
    path: Option<Seq<u8>>,
    port: u16,
) -> Result<(Option<Seq<u8>>, u16), i32>
    decreases args.len() - i,
{
    if i < 0 || i >= args.len() {
        Ok((path, port))
    } else {
        let a = args[i];
        if a.len() > 0 && a[0] == 45 {
            let f = a.skip(1);
            if is_help_flag(f) {
                Err(EXIT_HELP)
            } else if is_port_flag(f) {
                if i + 1 < args.len() {
                    if is_port_text(args[i + 1]) {
                        parse_from(args, i + 2, path, decimal_value(args[i + 1]) as u16)
                    } else {
                        Err(EXIT_BAD_ARGUMENT)
                    }
                } else {
                    Err(EXIT_BAD_FLAG)
                }
            } else {
                Err(EXIT_BAD_FLAG)
            }
        } else if path is None {
            parse_from(args, i + 1, Some(a), port)
        } else {
            Err(EXIT_BAD_ARGUMENT)
        }
    }
}

/// The view of a list of arguments.
pub open spec fn args_view(args: Seq<Vec<u8>>) -> Seq<Seq<u8>> {
    args.map_values(|a: Vec<u8>| a@)
}

fn flag_is(a: &Vec<u8>, short: u8, long: &[u8]) -> (r: bool)
    requires
        a@.len() > 0,
    ensures
        r == (a@.skip(1) == seq![short] || a@.skip(1) == long@),
{
    let ghost f = a@.skip(1);
    let n = a.len();
    if n == 2 && a[1] == short {
        assert(f =~= seq![short]);
        return true;
    }
    assert(f != seq![short]) by {
        if f == seq![short] {
            assert(f.len() == 1 && f[0] == short);
        }
    }
    if n - 1 != long.len() {
        return false;
    }
    let mut i: usize = 0;
    while i < long.len()
        invariant
            n == a@.len(),
            n - 1 == long@.len(),
            i <= long@.len(),
            f == a@.skip(1),
            f != seq![short],
            forall|j: int| 0 <= j < i ==> f[j] == long@[j],
        decreases long@.len() - i,
    {
        if a[i + 1] != long[i] {
            assert(f[i as int] != long@[i as int]);
            return false;
        }
        i = i + 1;
    }
    assert(f =~= long@);
    true
}

/// Reads the arguments (without the program name) with `default_port` as the port
/// when none is given. `Err` carries the exit code: `EXIT_HELP` for a help request,
/// `EXIT_BAD_FLAG` for an unknown flag or a port flag without a value,
/// `EXIT_BAD_ARGUMENT` for a port outside `1..=65535` or a second path.
pub fn parse_args(args: Vec<Vec<u8>>, default_port: u16) -> (r: Result<(Option<Vec<u8>>, u16), i32>)
    ensures
        match r {
            Ok((path, port)) => parse_from(args_view(args@), 0, None, default_port) == Ok::<
                (Option<Seq<u8>>, u16),
                i32,
            >((
                match path {
                    Some(p) => Some(p@),
                    None => None,
                },
                port,
            )),
            Err(code) => parse_from(args_view(args@), 0, None, default_port) == Err::<
                (Option<Seq<u8>>, u16),
                i32,
            >(code),
        },
{
    let ghost v = args_view(args@);
    let n = args.len();
    let mut path: Option<Vec<u8>> = None;
    let mut port: u16 = default_port;
    let mut i: usize = 0;
    while i < n
        invariant
            i <= n == args@.len(),
            v == args_view(args@),
            v.len() == n,
            parse_from(v, i as int, match path {
                Some(p) => Some(p@),
                None => None,
            }, port) == parse_from(v, 0, None, default_port),
        decreases n - i,
    {
        let a = &args[i];
        assert(v[i as int] == a@);
        if a.len() > 0 && a[0] == 45 {
            if flag_is(a, 104u8, &[45u8, 104u8, 101u8, 108u8, 112u8]) {
                return Err(EXIT_HELP);
            }
            if !flag_is(a, 112u8, &[45u8, 112u8, 111u8, 114u8, 116u8]) {
                return Err(EXIT_BAD_FLAG);
            }
            if i + 1 >= n {
                return Err(EXIT_BAD_FLAG);
            }
            let value = &args[i + 1];
            assert(v[i + 1] == value@);
            match parse_u64(value.as_slice(), 0, value.len()) {
                Some(p) => {
                    assert(value@.subrange(0, value@.len() as int) =~= value@);
                    if p == 0 || p > 65535 {
                        return Err(EXIT_BAD_ARGUMENT);
                    }
                    port = p as u16;
                },
                None => {
                    assert(value@.subrange(0, value@.len() as int) =~= value@);
                    return Err(EXIT_BAD_ARGUMENT);
                },
            }
            i = i + 2;
        } else {
            if path.is_some() {
                return Err(EXIT_BAD_ARGUMENT);
            }
            path = Some(a.clone());
            i = i + 1;
        }
    }
    Ok((path, port))
}

impl Args {
    /// Reads the arguments (without the program name); the port defaults to
    /// `u16::MAX`.
    pub fn new(args: Vec<Vec<u8>>) -> (r: Result<Args, i32>)
        ensures
            match r {
                Ok(a) => parse_from(args_view(args@), 0, None, u16::MAX) == Ok::<
                    (Option<Seq<u8>>, u16),
                    i32,
                >((
                    match a.path {
                        Some(p) => Some(p@),
                        None => None,
                    },
                    a.port,
                )),
                Err(code) => parse_from(args_view(args@), 0, None, u16::MAX) == Err::<
                    (Option<Seq<u8>>, u16),
                    i32,
                >(code),
            },
    {
        match parse_args(args, u16::MAX) {
            Ok((path, port)) => Ok(Args { path, port }),
            Err(code) => Err(code),
        }
    }
}

impl Cli {
    /// Reads the arguments (without the program name); the port defaults to 8080.
    pub fn from_args(args: Vec<Vec<u8>>) -> (r: Result<Cli, i32>)
        ensures
            match r {
                Ok(c) => parse_from(args_view(args@), 0, None, 8080) == Ok::<
                    (Option<Seq<u8>>, u16),
                    i32,
                >((
                    match c.path {
                        Some(p) => Some(p@),
                        None => None,
                    },
                    c.port,
                )),
                Err(code) => parse_from(args_view(args@), 0, None, 8080) == Err::<
                    (Option<Seq<u8>>, u16),
                    i32,
                >(code),
            },
    {
        match parse_args(args, 8080) {
            Ok((path, port)) => Ok(Cli { port, path }),
            Err(code) => Err(code),
        }
    }
}

} // verus!
