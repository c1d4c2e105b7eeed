//! The verified core of a command-line password manager: the text encoding
//! of encrypted fields, key derivation, sealed storage of logins, password
//! hashing and the decisions of the interactive prompts.

use vstd::prelude::*;

use crate::text::{chars_of, string_of_chars, trim_end, trim_end_chars};

pub mod database;
pub mod generator;
pub mod password;
pub mod text;

verus! {

/// Name of the file that holds the bcrypt hash of the master password.
pub const CREDENTIALS_FILE: &'static str = ".usr.txt";

/// Asks the file system whether a file exists at `path`.
/// `std::path::Path::exists`: the answer depends on what is on disk, so
/// nothing is promised of it.
#[verifier::external_body]
fn path_exists(path: &str) -> bool {
    std::path::Path::new(path).exists()
}

/// Decides from whether the credentials file exists if this is the first
/// sign-in: it is exactly when the file is missing.
pub fn is_first_signin(credentials_exist: bool) -> (first: bool)
    ensures
        first == !credentials_exist,
{
    !credentials_exist
}

/// Returns `true` when the credentials file is missing (this is the first
/// sign-in) and `false` when it exists.
pub fn check_first_signin() -> bool {
    let exists = path_exists(CREDENTIALS_FILE);
    is_first_signin(exists)
}

/// A command typed at the main prompt.
#[derive(Debug, PartialEq, Eq, Structural, Clone, Copy)]
pub enum Command {
    Quit,
    Help,
    NewPassword,
    List,
    Copy,
    Edit,
    Delete,
    NewLogin,
    Unknown,
}

/// The command a line typed at the main prompt names.
pub open spec fn command_of(cmd: Seq<char>) -> Command {
    if cmd == "quit"@ || cmd == "q"@ {
        Command::Quit
    } else if cmd == "help"@ || cmd == "h"@ || cmd == "?"@ {
        Command::Help
    } else if cmd == "new-password"@ || cmd == "nwpw"@ {
        Command::NewPassword
    } else if cmd == "list"@ || cmd == "ls"@ {
        Command::List
    } else if cmd == "copy"@ || cmd == "cp"@ {
        Command::Copy
    } else if cmd == "edit"@ || cmd == "ed"@ {
        Command::Edit
    } else if cmd == "delete"@ || cmd == "del"@ || cmd == "rm"@ {
        Command::Delete
    } else if cmd == "new-login"@ || cmd == "nwlg"@ {
        Command::NewLogin
    } else {
        Command::Unknown
    }
}

/// Whether the characters `a` spell the string `b`.
fn spells(a: &Vec<char>, b: &str) -> (r: bool)
    ensures
        r == (a@ == b@),
{
    let bc = chars_of(b);
    if a.len() != bc.len() {
        return false;
    }
    let mut i: usize = 0;
    while i < a.len()
        invariant
            bc@ == b@,
            a@.len() == bc@.len(),
            0 <= i <= a@.len(),
            forall|k: int| 0 <= k < i ==> a@[k] == bc@[k],
        decreases a@.len() - i,
    {
        if a[i] != bc[i] {
            assert(a@[i as int] != bc@[i as int]);
            return false;
        }
        i = i + 1;
    }
    assert(a@ =~= bc@);
    true
}

/// Reads a line typed at the main prompt as a command.
pub fn parse_command(cmd: &str) -> (c: Command)
    ensures
        c == command_of(cmd@),
{
    let a = chars_of(cmd);
    if spells(&a, "quit") || spells(&a, "q") {
        Command::Quit
    } else if spells(&a, "help") || spells(&a, "h") || spells(&a, "?") {
        Command::Help
    } else if spells(&a, "new-password") || spells(&a, "nwpw") {
        Command::NewPassword
    } else if spells(&a, "list") || spells(&a, "ls") {
        Command::List
    } else if spells(&a, "copy") || spells(&a, "cp") {
        Command::Copy
    } else if spells(&a, "edit") || spells(&a, "ed") {
        Command::Edit
    } else if spells(&a, "delete") || spells(&a, "del") || spells(&a, "rm") {
        Command::Delete
    } else if spells(&a, "new-login") || spells(&a, "nwlg") {
        Command::NewLogin
    } else {
        Command::Unknown
    }
}

/// A line read at a prompt, without its trailing whitespace (the line
/// break among it); `None` when nothing is left, in which case the prompt
/// is asked again.
pub fn normalize_input(line: &str) -> (r: Option<String>)
    ensures
        r is None <==> trim_end(line@).len() == 0,
        r matches Some(s) ==> s@ == trim_end(line@),
{
    let trimmed = trim_end_chars(line);
    if trimmed.len() == 0 {
        None
    } else {
        Some(string_of_chars(&trimmed))
    }
}

} // verus!
