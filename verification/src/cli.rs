//! The command line: what is asked for, and what is answered.
use crate::config::{KEYRING_SERVICE, SAMPLE_CONFIG};
use crate::sort::views;
use crate::text::{begins, chars_of, string_of, trim, trimmed};
use vstd::prelude::*;
use vstd::string::*;

verus! {

/// What the program was started for.
#[derive(Debug, Clone)]
pub enum Command {
    /// store an app password, for this address or for one that is asked for
    Auth(Option<String>),
    /// print the stacks
    Stacks,
    /// say how the program is used
    Help,
    /// the TUI
    Run,
}

/// The value of a `Command`.
pub enum CommandV {
    Auth(Option<Seq<char>>),
    Stacks,
    Help,
    Run,
}

impl View for Command {
    type V = CommandV;

    open spec fn view(&self) -> CommandV {
        match self {
            Command::Auth(email) => CommandV::Auth(crate::stacks::opt_text(*email)),
            Command::Stacks => CommandV::Stacks,
            Command::Help => CommandV::Help,
            Command::Run => CommandV::Run,
        }
    }
}

/// What the arguments ask for. The first one is the program's own name.
pub open spec fn asked_for(args: Seq<Seq<char>>) -> CommandV {
    if args.len() < 2 {
        CommandV::Run
    } else if args[1] == "auth"@ {
        CommandV::Auth(
            if args.len() > 2 {
                Some(args[2])
            } else {
                None
            },
        )
    } else if args[1] == "stacks"@ {
        CommandV::Stacks
    } else if args[1] == "help"@ || args[1] == "--help"@ || args[1] == "-h"@ {
        CommandV::Help
    } else {
        CommandV::Run
    }
}

fn is(a: &String, b: &str) -> (r: bool)
    ensures
        r == (a@ == b@),
{
    let other = b.to_owned();
    *a == other
}

/// What the arguments ask for.
pub fn command(args: &[String]) -> (r: Command)
    ensures
        r@ == asked_for(views(args@)),
        args@.len() < 2 ==> r is Run,
        args@.len() >= 2 && args@[1]@ == "stacks"@ ==> r is Stacks,
        args@.len() >= 2 && (args@[1]@ == "help"@ || args@[1]@ == "--help"@ || args@[1]@ == "-h"@)
            ==> r is Help,
        args@.len() == 2 && args@[1]@ == "auth"@ ==> r == Command::Auth(None),
        args@.len() > 2 && args@[1]@ == "auth"@ ==> (r matches Command::Auth(Some(email)) && email@
            == args@[2]@),
        r is Auth ==> args@.len() >= 2 && args@[1]@ == "auth"@,
        r is Stacks ==> args@.len() >= 2 && args@[1]@ == "stacks"@,
        r is Help ==> args@.len() >= 2 && (args@[1]@ == "help"@ || args@[1]@ == "--help"@
            || args@[1]@ == "-h"@),
{
    proof {
        reveal_strlit("auth");
        reveal_strlit("stacks");
        reveal_strlit("help");
        reveal_strlit("--help");
        reveal_strlit("-h");
        assert("auth"@[0] == 'a' && "stacks"@[0] == 's' && "help"@[0] == 'h' && "--help"@[0] == '-'
            && "-h"@[0] == '-');
    }
    if args.len() < 2 {
        return Command::Run;
    }
    assert(views(args@)[1] == args@[1]@);
    let word = &args[1];
    if is(word, "auth") {
        if args.len() > 2 {
            assert(views(args@)[2] == args@[2]@);
            Command::Auth(Some(args[2].clone()))
        } else {
            Command::Auth(None)
        }
    } else if is(word, "stacks") {
        Command::Stacks
    } else if is(word, "help") || is(word, "--help") || is(word, "-h") {
        Command::Help
    } else {
        Command::Run
    }
}

pub const USAGE: &'static str = "mailprune — email triage TUI\n\n  mailprune            run the TUI\n  mailprune auth <em>  store a Gmail app password in the keychain\n  mailprune stacks     print stacks to stdout (no TUI)\n\nconfig: ~/.config/mailprune/config.toml\n";

/// How the program is used.
pub fn help_message() -> (r: String)
    ensures
        r@ == USAGE@ + SAMPLE_CONFIG@,
{
    let mut out = USAGE.to_owned();
    out.append(SAMPLE_CONFIG);
    out
}

/// A line that was typed as an answer, without the white space around it.
pub fn answer(line: &str) -> (r: String)
    ensures
        r@ == trimmed(line@),
{
    let chars = chars_of(line);
    string_of(trim(chars.as_slice()))
}

/// What is asked before a password is typed.
pub fn password_prompt(email: &str) -> (r: String)
    ensures
        r@ == "app password for "@ + email@ + ": "@,
{
    let mut out = "app password for ".to_owned();
    out.append(email);
    out.append(": ");
    out
}

/// What is said once a password is stored.
pub fn stored_message(email: &str) -> (r: String)
    ensures
        r@ == "stored in keychain (service \"mailprune\", account "@ + email@ + ")"@,
        begins(r@, "stored in keychain (service "@ + seq!['"'] + KEYRING_SERVICE@ + seq!['"']),
{
    proof {
        reveal_strlit("stored in keychain (service \"mailprune\", account ");
        reveal_strlit("stored in keychain (service ");
        reveal_strlit("mailprune");
        let head = "stored in keychain (service \"mailprune\", account "@;
        let named = "stored in keychain (service "@ + seq!['"'] + KEYRING_SERVICE@ + seq!['"'];
        assert(head.take(named.len() as int) =~= named);
        let all = head + email@ + ")"@;
        assert(all.take(named.len() as int) =~= named);
    }
    let mut out = "stored in keychain (service \"mailprune\", account ".to_owned();
    out.append(email);
    out.append(")");
    out
}

} // verus!
