//! The command line: which subcommand runs, how `hint` reads its flags, and
//! what a run prints and exits with.
//!
//! ```text
//! herdr-preview hint [--list] [--text TEXT] [--cwd PATH]
//! herdr-preview hint-overlay
//! herdr-preview browse
//! herdr-preview [-h | --help | -V | --version]
//! ```
use vstd::prelude::*;
use crate::classify::strs;
use crate::hint::{hint_message, HintError};
use crate::open::contains_seq;
use crate::text::{push_str, str_to_chars};

verus! {

/// What the command line asks for.
#[derive(Debug, Clone, PartialEq, Eq)]
pub enum CliCommand {
    Usage,
    Version,
    /// `hint` with the arguments after it.
    Hint(Vec<String>),
    HintOverlay,
    Browse,
    Unknown,
}

fn arg_is(a: &String, lit: &str) -> (r: bool)
    ensures
        r == (a@ == lit@),
{
    let x = str_to_chars(a.as_str());
    let y = str_to_chars(lit);
    if x.len() != y.len() {
        return false;
    }
    let r = crate::text::matches_at_exec(x.as_slice(), 0, y.as_slice());
    proof {
        if x@ == y@ || r {
            assert(x@.subrange(0, y@.len() as int) =~= x@);
        }
    }
    r
}

/// The subcommand `args` (the arguments after the program name) ask for:
/// none or a help flag alone prints usage, a version flag alone the
/// version; `hint` takes the rest; `hint-overlay` and `browse` stand alone.
pub open spec fn command_spec(args: Seq<Seq<char>>) -> CliCommand {
    if args.len() == 0 {
        CliCommand::Usage
    } else if args.len() == 1 && (args[0] == "--help"@ || args[0] == "-h"@) {
        CliCommand::Usage
    } else if args.len() == 1 && (args[0] == "--version"@ || args[0] == "-V"@) {
        CliCommand::Version
    } else if args[0] == "hint"@ {
        CliCommand::Unknown
    } else if args.len() == 1 && args[0] == "hint-overlay"@ {
        CliCommand::HintOverlay
    } else if args.len() == 1 && args[0] == "browse"@ {
        CliCommand::Browse
    } else {
        CliCommand::Unknown
    }
}

/// The subcommand of `args` (see [`command_spec`]; for `hint`, the
/// arguments after it are handed on).
pub fn cli_command(args: &Vec<String>) -> (c: CliCommand)
    ensures
        args@.len() > 0 && args@[0]@ == "hint"@ ==> (c matches CliCommand::Hint(rest) && strs(
            rest@,
        ) == strs(args@).skip(1)),
        !(args@.len() > 0 && args@[0]@ == "hint"@) ==> c == command_spec(strs(args@)),
{
    proof {
        reveal_strlit("hint");
        reveal_strlit("--help");
        reveal_strlit("-h");
        reveal_strlit("--version");
        reveal_strlit("-V");
    }
    let n = args.len();
    if n == 0 {
        return CliCommand::Usage;
    }
    let a = &args[0];
    assert(strs(args@)[0] == a@);
    if n == 1 && (arg_is(a, "--help") || arg_is(a, "-h")) {
        return CliCommand::Usage;
    }
    if n == 1 && (arg_is(a, "--version") || arg_is(a, "-V")) {
        return CliCommand::Version;
    }
    if arg_is(a, "hint") {
        let mut rest: Vec<String> = Vec::new();
        let mut k: usize = 1;
        while k < n
            invariant
                n == args@.len(),
                1 <= k <= n,
                strs(rest@) == strs(args@).subrange(1, k as int),
            decreases n - k,
        {
            let ghost old_rest = rest@;
            rest.push(args[k].clone());
            assert(strs(rest@) =~= strs(old_rest).push(args@[k as int]@));
            assert(strs(args@).subrange(1, k + 1) =~= strs(args@).subrange(1, k as int).push(
                args@[k as int]@,
            ));
            k = k + 1;
        }
        assert(strs(args@).subrange(1, n as int) =~= strs(args@).skip(1));
        return CliCommand::Hint(rest);
    }
    if n == 1 && arg_is(a, "hint-overlay") {
        return CliCommand::HintOverlay;
    }
    if n == 1 && arg_is(a, "browse") {
        return CliCommand::Browse;
    }
    CliCommand::Unknown
}

/// How `hint` runs.
#[derive(Debug, Clone, PartialEq, Eq)]
pub enum HintMode {
    /// Print the list for the given text and working directory.
    ListText { text: String, cwd: String },
    /// Print the list for the focused pane.
    ListFocused,
    /// Pick a hint in the overlay.
    Action,
}

/// The flags of `hint` from position `i` on, given what was read before:
/// `--list`, and `--text` and `--cwd` with a value each (the last one
/// counts); the first unknown flag or missing value gives its message.
pub open spec fn hint_flags_from(
    args: Seq<Seq<char>>,
    i: int,
    list: bool,
    text: Option<Seq<char>>,
    cwd: Option<Seq<char>>,
) -> Result<(bool, Option<Seq<char>>, Option<Seq<char>>), Seq<char>>
    decreases args.len() - i,
{
    if i < 0 || i >= args.len() {
        Ok((list, text, cwd))
    } else if args[i] == "--list"@ {
        hint_flags_from(args, i + 1, true, text, cwd)
    } else if args[i] == "--text"@ {
        if i + 1 < args.len() {
            hint_flags_from(args, i + 2, list, Some(args[i + 1]), cwd)
        } else {
            Err("--text requires a value"@)
        }
    } else if args[i] == "--cwd"@ {
        if i + 1 < args.len() {
            hint_flags_from(args, i + 2, list, text, Some(args[i + 1]))
        } else {
            Err("--cwd requires a value"@)
        }
    } else {
        Err("unknown argument `"@ + args[i] + "`"@)
    }
}

/// The mode the flags of `hint` ask for, or the message of what is wrong
/// with them: `--text` and `--cwd` are for `--list` alone.
pub open spec fn hint_mode_spec(args: Seq<Seq<char>>) -> Result<
    (bool, Option<Seq<char>>, Option<Seq<char>>),
    Seq<char>,
> {
    match hint_flags_from(args, 0, false, None, None) {
        Err(m) => Err(m),
        Ok((list, text, cwd)) => if !list && (text is Some || cwd is Some) {
            Err("--text/--cwd require --list for headless mode"@)
        } else {
            Ok((list, text, cwd))
        },
    }
}

pub open spec fn opt_str_view(o: Option<String>) -> Option<Seq<char>> {
    match o {
        Some(s) => Some(s@),
        None => None,
    }
}

/// The mode of `hint` for its arguments `args`, or the message to print.
pub fn parse_hint_args(args: &Vec<String>) -> (r: Result<HintMode, String>)
    ensures
        match hint_mode_spec(strs(args@)) {
            Err(m) => r matches Err(s) && s@ == m,
            Ok((list, text, cwd)) => if list && text is Some && cwd is Some {
                r matches Ok(HintMode::ListText { text: t, cwd: c }) && Some(t@) == text && Some(
                    c@,
                ) == cwd
            } else if list {
                r == Ok::<HintMode, String>(HintMode::ListFocused)
            } else {
                r == Ok::<HintMode, String>(HintMode::Action)
            },
        },
{
    let ghost sa = strs(args@);
    let n = args.len();
    let mut list = false;
    let mut text: Option<String> = None;
    let mut cwd: Option<String> = None;
    let mut i: usize = 0;
    while i < n
        invariant
            n == args@.len(),
            sa == strs(args@),
            i <= n,
            hint_flags_from(sa, 0, false, None, None) == hint_flags_from(
                sa,
                i as int,
                list,
                opt_str_view(text),
                opt_str_view(cwd),
            ),
        decreases n - i,
    {
        let a = &args[i];
        assert(sa[i as int] == a@);
        if arg_is(a, "--list") {
            list = true;
            i = i + 1;
        } else if arg_is(a, "--text") {
            if i + 1 < n {
                assert(sa[i + 1] == args@[i + 1]@);
                text = Some(args[i + 1].clone());
                i = i + 2;
            } else {
                let mut m = String::new();
                push_str(&mut m, "--text requires a value");
                return Err(m);
            }
        } else if arg_is(a, "--cwd") {
            if i + 1 < n {
                assert(sa[i + 1] == args@[i + 1]@);
                cwd = Some(args[i + 1].clone());
                i = i + 2;
            } else {
                let mut m = String::new();
                push_str(&mut m, "--cwd requires a value");
                return Err(m);
            }
        } else {
            let mut m = String::new();
            push_str(&mut m, "unknown argument `");
            push_str(&mut m, a.as_str());
            push_str(&mut m, "`");
            return Err(m);
        }
    }
    if list {
        match (text, cwd) {
            (Some(t), Some(c)) => Ok(HintMode::ListText { text: t, cwd: c }),
            _ => Ok(HintMode::ListFocused),
        }
    } else if text.is_some() || cwd.is_some() {
        let mut m = String::new();
        push_str(&mut m, "--text/--cwd require --list for headless mode");
        Err(m)
    } else {
        Ok(HintMode::Action)
    }
}

/// What a run of `hint` prints and exits with.
#[derive(Debug, Clone, PartialEq, Eq)]
pub struct Report {
    pub stdout: String,
    pub stderr: Option<String>,
    pub code: i32,
}

/// The report of a `hint` run: the list on standard output when listing;
/// no targets is a note, not a failure; any other error fails with its
/// message.
pub open spec fn hint_report_spec(r: Result<String, HintError>, list: bool) -> (
    Seq<char>,
    Option<Seq<char>>,
    i32,
) {
    match r {
        Ok(out) => (
            if list {
                out@
            } else {
                Seq::<char>::empty()
            },
            None,
            0i32,
        ),
        Err(HintError::NoOpenableTargets) => (
            Seq::<char>::empty(),
            Some("herdr-preview: no openable targets in visible pane text"@),
            0i32,
        ),
        Err(e) => (Seq::<char>::empty(), Some("herdr-preview hint: "@ + hint_message(e)), 1i32),
    }
}

/// The report of a `hint` run (see [`hint_report_spec`]).
pub fn hint_report(r: &Result<String, HintError>, list: bool) -> (rep: Report)
    ensures
        (rep.stdout@, opt_str_view(rep.stderr), rep.code) == hint_report_spec(*r, list),
{
    match r {
        Ok(out) => {
            let mut s = String::new();
            if list {
                push_str(&mut s, out.as_str());
            }
            Report { stdout: s, stderr: None, code: 0 }
        },
        Err(HintError::NoOpenableTargets) => {
            let mut m = String::new();
            push_str(&mut m, "herdr-preview: no openable targets in visible pane text");
            Report { stdout: String::new(), stderr: Some(m), code: 0 }
        },
        Err(e) => {
            let mut m = String::new();
            push_str(&mut m, "herdr-preview hint: ");
            let t = e.message();
            push_str(&mut m, t.as_str());
            Report { stdout: String::new(), stderr: Some(m), code: 1 }
        },
    }
}

/// What a failed `hint-overlay` prints: a missing variable of the
/// environment by its own message, anything else by the error's text.
pub open spec fn overlay_failure_spec(e: HintError) -> Seq<char> {
    match e {
        HintError::OverlayEnv(m) => if contains_seq(m@, "missing"@) {
            "herdr-preview hint-overlay: "@ + m@
        } else {
            "herdr-preview hint-overlay: "@ + hint_message(e)
        },
        _ => "herdr-preview hint-overlay: "@ + hint_message(e),
    }
}

/// What a failed `hint-overlay` prints (see [`overlay_failure_spec`]).
pub fn overlay_failure(e: &HintError) -> (s: String)
    ensures
        s@ == overlay_failure_spec(*e),
{
    let mut s = String::new();
    push_str(&mut s, "herdr-preview hint-overlay: ");
    match e {
        HintError::OverlayEnv(m) => {
            let mv = str_to_chars(m.as_str());
            let word = str_to_chars("missing");
            if crate::open::contains_chars(mv.as_slice(), word.as_slice()) {
                push_str(&mut s, m.as_str());
                return s;
            }
        },
        _ => {},
    }
    let t = e.message();
    push_str(&mut s, t.as_str());
    s
}

} // verus!
