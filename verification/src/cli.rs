//! The command line of the merge tool, read into what it asks for.

use vstd::prelude::*;

use crate::text::text_eq;

verus! {

/// What the command line shows when it is asked for help or is misused.
pub const USAGE: &'static str = "usage:
  toml-merge merge --default D.toml --user U.toml [--in-place | --output OUT] [--no-align]
  toml-merge check --default D.toml --user U.toml [--no-align]

  merge  writes the merged document, to stdout unless --output or --in-place
  check  writes nothing
  --no-align  keeps the spacing before each `=` as written

Both print diagnostics to stderr and exit non-zero when one of them is an error.
";

/// What the invocation asks for.
#[derive(Debug, Clone, Copy, PartialEq, Eq, Structural)]
pub enum Command {
    /// Merge, and write the result.
    Merge,
    /// Merge, report, and write nothing.
    Check,
}

/// Where a merge writes its result.
#[derive(Debug, PartialEq, Eq)]
pub enum Destination {
    /// Standard output.
    Stdout,
    /// A file of its own, named by path.
    File(String),
    /// Over the user's file.
    InPlace,
}

/// A command line, read.
#[derive(Debug, PartialEq, Eq)]
pub struct Invocation {
    pub command: Command,
    /// The path of the defaults document.
    pub default: String,
    /// The path of the user's document.
    pub user: String,
    pub destination: Destination,
    /// Whether the `=` of the keys of a section are lined up.
    pub align: bool,
}

/// A destination, for contracts.
pub enum Dest {
    Stdout,
    File(Seq<char>),
    InPlace,
}

/// What the options read so far have set.
pub struct Opts {
    pub default: Option<Seq<char>>,
    pub user: Option<Seq<char>>,
    pub dest: Dest,
    pub align: bool,
}

impl Destination {
    pub open spec fn dest(&self) -> Dest {
        match self {
            Destination::Stdout => Dest::Stdout,
            Destination::File(path) => Dest::File(path@),
            Destination::InPlace => Dest::InPlace,
        }
    }
}

/// The text an optional string holds.
pub open spec fn opt_view(o: Option<String>) -> Option<Seq<char>> {
    match o {
        Some(s) => Some(s@),
        None => None,
    }
}

/// The message for an option given without the path it takes.
pub open spec fn needs_path(name: Seq<char>) -> Seq<char> {
    name + " needs a path"@
}

/// The options from position `i` on, read into `o`.
pub open spec fn scan(args: Seq<Seq<char>>, i: int, o: Opts) -> Result<Opts, Seq<char>>
    decreases args.len() - i,
{
    if i < 0 || i >= args.len() {
        Ok(o)
    } else {
        let a = args[i];
        if a == "--in-place"@ {
            scan(args, i + 1, Opts { dest: Dest::InPlace, ..o })
        } else if a == "--no-align"@ {
            scan(args, i + 1, Opts { align: false, ..o })
        } else if a == "--default"@ || a == "--user"@ || a == "--output"@ {
            if i + 1 >= args.len() {
                Err(needs_path(a))
            } else {
                let v = args[i + 1];
                let next = if a == "--default"@ {
                    Opts { default: Some(v), ..o }
                } else if a == "--user"@ {
                    Opts { user: Some(v), ..o }
                } else {
                    Opts { dest: Dest::File(v), ..o }
                };
                scan(args, i + 2, next)
            }
        } else {
            Err("no such option: "@ + a + "\n\n"@ + USAGE@)
        }
    }
}

/// What a command line asks for, or the message refusing it.
pub open spec fn invocation_spec(args: Seq<Seq<char>>) -> Result<
    (Command, Seq<char>, Seq<char>, Dest, bool),
    Seq<char>,
> {
    if args.len() == 0 || args[0] == "--help"@ || args[0] == "-h"@ {
        Err(USAGE@)
    } else if args[0] != "merge"@ && args[0] != "check"@ {
        Err("no such command: "@ + args[0] + "\n\n"@ + USAGE@)
    } else {
        let command = if args[0] == "merge"@ {
            Command::Merge
        } else {
            Command::Check
        };
        match scan(args, 1, Opts { default: None, user: None, dest: Dest::Stdout, align: true }) {
            Err(e) => Err(e),
            Ok(o) => match (o.default, o.user) {
                (None, _) => Err("--default is required"@),
                (Some(_), None) => Err("--user is required"@),
                (Some(d), Some(u)) => if command == Command::Check && !(o.dest is Stdout) {
                    Err("check writes nothing, so it takes no --output or --in-place"@)
                } else {
                    Ok((command, d, u, o.dest, o.align))
                },
            },
        }
    }
}

/// Whether a string holds exactly the given text.
fn is(a: &String, text: &str) -> (r: bool)
    ensures
        r == (a@ == text@),
{
    let t = text.to_owned();
    text_eq(a, &t)
}

/// Text followed by more text.
fn joined(a: &str, b: &str) -> (r: String)
    ensures
        r@ == a@ + b@,
{
    let mut out = a.to_owned();
    out.append(b);
    out
}

impl Invocation {
    /// Reads the arguments after the program's name.
    pub fn parse(args: &[String]) -> (r: Result<Self, String>)
        ensures
            r matches Ok(inv) ==> invocation_spec(args@.map_values(|a: String| a@)) == Ok::<
                (Command, Seq<char>, Seq<char>, Dest, bool),
                Seq<char>,
            >((inv.command, inv.default@, inv.user@, inv.destination.dest(), inv.align)),
            r matches Err(e) ==> invocation_spec(args@.map_values(|a: String| a@)) == Err::<
                (Command, Seq<char>, Seq<char>, Dest, bool),
                Seq<char>,
            >(e@),
    {
        let ghost views = args@.map_values(|a: String| a@);
        if args.len() == 0 || is(&args[0], "--help") || is(&args[0], "-h") {
            return Err(USAGE.to_owned());
        }
        let command = if is(&args[0], "merge") {
            Command::Merge
        } else if is(&args[0], "check") {
            Command::Check
        } else {
            let head = joined("no such command: ", args[0].as_str());
            let head = joined(head.as_str(), "\n\n");
            return Err(joined(head.as_str(), USAGE));
        };
        let mut default: Option<String> = None;
        let mut user: Option<String> = None;
        let mut destination = Destination::Stdout;
        let mut align = true;
        let mut i: usize = 1;
        while i < args.len()
            invariant
                1 <= i <= args@.len() + 1,
                views == args@.map_values(|a: String| a@),
                views.len() > 0,
                views[0] != "--help"@ && views[0] != "-h"@,
                views[0] == "merge"@ || views[0] == "check"@,
                scan(views, 1, Opts { default: None, user: None, dest: Dest::Stdout, align: true })
                    == scan(
                    views,
                    i as int,
                    Opts {
                        default: opt_view(default),
                        user: opt_view(user),
                        dest: destination.dest(),
                        align,
                    },
                ),
            decreases args.len() + 1 - i,
        {
            let a = &args[i];
            assert(views[i as int] == a@);
            let ghost cur = Opts {
                default: opt_view(default),
                user: opt_view(user),
                dest: destination.dest(),
                align,
            };
            if is(a, "--in-place") {
                destination = Destination::InPlace;
                i = i + 1;
            } else if is(a, "--no-align") {
                align = false;
                i = i + 1;
            } else if is(a, "--default") || is(a, "--user") || is(a, "--output") {
                if i + 1 >= args.len() {
                    let e = joined(a.as_str(), " needs a path");
                    assert(scan(views, i as int, cur) == Err::<Opts, Seq<char>>(e@));
                    return Err(e);
                }
                let v = args[i + 1].clone();
                assert(views[i + 1] == v@);
                if is(a, "--default") {
                    default = Some(v);
                } else if is(a, "--user") {
                    user = Some(v);
                } else {
                    destination = Destination::File(v);
                }
                i = i + 2;
            } else {
                let head = joined("no such option: ", a.as_str());
                let head = joined(head.as_str(), "\n\n");
                let e = joined(head.as_str(), USAGE);
                assert(e@ =~= "no such option: "@ + a@ + "\n\n"@ + USAGE@);
                assert(scan(views, i as int, cur) == Err::<Opts, Seq<char>>(e@));
                return Err(e);
            }
        }
        assert(scan(
            views,
            i as int,
            Opts {
                default: opt_view(default),
                user: opt_view(user),
                dest: destination.dest(),
                align,
            },
        ) == Ok::<Opts, Seq<char>>(Opts {
            default: opt_view(default),
            user: opt_view(user),
            dest: destination.dest(),
            align,
        }));
        let default = match default {
            Some(d) => d,
            None => {
                return Err("--default is required".to_owned());
            },
        };
        let user = match user {
            Some(u) => u,
            None => {
                return Err("--user is required".to_owned());
            },
        };
        let writes = match destination {
            Destination::Stdout => false,
            _ => true,
        };
        if command == Command::Check && writes {
            return Err("check writes nothing, so it takes no --output or --in-place".to_owned());
        }
        Ok(Invocation { command, default, user, destination, align })
    }
}

} // verus!
