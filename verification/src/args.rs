//! The command line: `[--config <path>] [--dir <path>]`.

use vstd::prelude::*;

use crate::precommit::string_views;

verus! {

/// Where the configuration and the project are.
pub struct Args {
    /// The pre-commit configuration file.
    pub config: String,
    /// The directory that the dependency files are read from.
    pub dir: String,
}

/// The outcome of reading the arguments from index `i` on, with the
/// options seen so far: each `--config`/`-c` and `--dir`/`-d` takes the next
/// argument as its value (a later one wins); an option without a value or
/// any other argument is an error. Unset options default to
/// `.pre-commit-config.yaml` and `.`.
pub open spec fn args_from(
    args: Seq<Seq<char>>,
    i: int,
    config: Option<Seq<char>>,
    dir: Option<Seq<char>>,
) -> Result<(Seq<char>, Seq<char>), Seq<char>>
    decreases args.len() - i,
{
    if i < 0 || i >= args.len() {
        Ok(
            (
                match config {
                    Some(c) => c,
                    None => ".pre-commit-config.yaml"@,
                },
                match dir {
                    Some(d) => d,
                    None => "."@,
                },
            ),
        )
    } else if args[i] == "--config"@ || args[i] == "-c"@ {
        if i + 1 < args.len() {
            args_from(args, i + 2, Some(args[i + 1]), dir)
        } else {
            Err("--config requires a value"@)
        }
    } else if args[i] == "--dir"@ || args[i] == "-d"@ {
        if i + 1 < args.len() {
            args_from(args, i + 2, config, Some(args[i + 1]))
        } else {
            Err("--dir requires a value"@)
        }
    } else {
        Err("unknown argument: "@ + args[i])
    }
}

/// The outcome of reading `args` (see [`args_from`]).
pub open spec fn args_of(args: Seq<Seq<char>>) -> Result<(Seq<char>, Seq<char>), Seq<char>> {
    args_from(args, 0, None, None)
}

/// Reads the command-line arguments (without the program name); on error,
/// the message to show.
pub fn parse_args(args: Vec<String>) -> (r: Result<Args, String>)
    ensures
        match r {
            Ok(a) => args_of(string_views(args@)) == Ok::<(Seq<char>, Seq<char>), Seq<char>>(
                (a.config@, a.dir@),
            ),
            Err(e) => args_of(string_views(args@)) == Err::<(Seq<char>, Seq<char>), Seq<char>>(
                e@,
            ),
        },
{
    let ghost sv = string_views(args@);
    let long_config = "--config".to_owned();
    let short_config = "-c".to_owned();
    let long_dir = "--dir".to_owned();
    let short_dir = "-d".to_owned();
    let mut config: Option<String> = None;
    let mut dir: Option<String> = None;
    let mut i: usize = 0;
    while i < args.len()
        invariant
            sv == string_views(args@),
            i <= args@.len(),
            long_config@ == "--config"@,
            short_config@ == "-c"@,
            long_dir@ == "--dir"@,
            short_dir@ == "-d"@,
            args_of(sv) == args_from(
                sv,
                i as int,
                match config {
                    Some(c) => Some(c@),
                    None => None,
                },
                match dir {
                    Some(d) => Some(d@),
                    None => None,
                },
            ),
        decreases args@.len() - i,
    {
        let a = &args[i];
        assert(sv[i as int] == a@);
        if *a == long_config || *a == short_config {
            if i + 1 < args.len() {
                config = Some(args[i + 1].clone());
                assert(sv[i + 1] == args@[i + 1]@);
                i = i + 2;
            } else {
                return Err("--config requires a value".to_owned());
            }
        } else if *a == long_dir || *a == short_dir {
            if i + 1 < args.len() {
                dir = Some(args[i + 1].clone());
                assert(sv[i + 1] == args@[i + 1]@);
                i = i + 2;
            } else {
                return Err("--dir requires a value".to_owned());
            }
        } else {
            let mut msg = "unknown argument: ".to_owned();
            msg.append(a.as_str());
            return Err(msg);
        }
    }
    let config = match config {
        Some(c) => c,
        None => ".pre-commit-config.yaml".to_owned(),
    };
    let dir = match dir {
        Some(d) => d,
        None => ".".to_owned(),
    };
    Ok(Args { config, dir })
}

} // verus!
