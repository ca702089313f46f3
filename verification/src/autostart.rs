//! The per-user Run entry that opens Blurman when you sign in to Windows.

use crate::text;
use vstd::prelude::*;
use vstd::string::*;

verus! {

pub const ERROR_SUCCESS: u32 = 0;

pub const ERROR_FILE_NOT_FOUND: u32 = 2;

/// The command the entry holds: this copy of Blurman, opened in the tray.
pub open spec fn command_for(exe: Seq<char>) -> Seq<char> {
    "\""@ + exe + "\" --startup"@
}

pub fn command(exe: &str) -> (r: String)
    ensures
        r@ == command_for(exe@),
{
    let mut r: String = text::joined("\"", exe);
    r.append("\" --startup");
    r
}

/// `current` is the command the entry holds, if there is an entry.
pub fn is_enabled(current: Option<&str>) -> (r: bool)
    ensures
        r == (current is Some),
{
    current.is_some()
}

/// Point an existing entry at this copy of Blurman, in case the exe was moved. Gives the command
/// to write, when one is to be written. `exe` is this copy, where it can be told.
pub fn refresh(current: Option<&str>, exe: Option<&str>) -> (r: Option<String>)
    ensures
        r is Some <==> current is Some && exe is Some && current->0@ != command_for(exe->0@),
        r matches Some(text) ==> text@ == command_for(exe->0@),
{
    match (current, exe) {
        (Some(current), Some(exe)) => {
            let wanted: String = command(exe);
            if text::same_text(current, wanted.as_str()) {
                None
            } else {
                Some(wanted)
            }
        },
        _ => None,
    }
}

/// What came of turning the entry on or off. `code` is what Windows answered. Turning off an entry
/// that is not there is fine.
pub fn set_enabled(on: bool, code: u32) -> (r: Result<(), String>)
    ensures
        r is Ok <==> code == ERROR_SUCCESS || (!on && code == ERROR_FILE_NOT_FOUND),
        r matches Err(text) ==> text@ == if on {
            "Could not turn on start with Windows ("@
        } else {
            "Could not turn off start with Windows ("@
        } + text::digits(code as nat) + ")."@,
        code == 0 ==> r is Ok,
        !on && code == 2 ==> r is Ok,
{
    if code == ERROR_SUCCESS || (!on && code == ERROR_FILE_NOT_FOUND) {
        return Ok(());
    }
    let number: String = text::decimal(code as u64);
    let mut message: String = if on {
        "Could not turn on start with Windows (".to_owned()
    } else {
        "Could not turn off start with Windows (".to_owned()
    };
    message.append(number.as_str());
    message.append(").");
    Err(message)
}

/// An entry that was written for this copy needs no refreshing, and one that is not there is not
/// made.
pub proof fn refreshing_settles(current: Option<Seq<char>>, exe: Seq<char>)
    ensures
        ({
            let rewrites = |entry: Option<Seq<char>>| entry is Some && entry->0 != command_for(exe);
            let after = if rewrites(current) {
                Some(command_for(exe))
            } else {
                current
            };
            &&& !rewrites(after)
            &&& after is Some <==> current is Some
            &&& after matches Some(text) ==> text == command_for(exe)
        }),
{
}

/// The entry starts this very copy: its path between quotes, and the word that it was started by
/// Windows.
pub proof fn the_entry_starts_this_copy(exe: Seq<char>)
    ensures
        command_for(exe).len() == exe.len() + 12,
        command_for(exe)[0] == '"',
        command_for(exe).subrange(1, exe.len() as int + 1) == exe,
        command_for(exe)[exe.len() as int + 1] == '"',
        command_for(exe).skip(exe.len() as int + 2) == " --startup"@,
{
    reveal_strlit("\"");
    reveal_strlit("\" --startup");
    reveal_strlit(" --startup");
    assert(command_for(exe).subrange(1, exe.len() as int + 1) =~= exe);
    assert(command_for(exe).skip(exe.len() as int + 2) =~= " --startup"@);
}

} // verus!
