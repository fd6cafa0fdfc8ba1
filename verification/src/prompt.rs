//! The commands a user can choose, and how an answer picks one.
use vstd::prelude::*;

verus! {

/// What the user asked for.
pub enum UserCommand {
    Init,
    Fetch,
    Parse,
    Download,
    Default,
}

/// The command one answer letter picks; anything unknown runs the default
/// sequence.
pub open spec fn command_for(a: Seq<char>) -> UserCommand {
    if a == seq!['i'] {
        UserCommand::Init
    } else if a == seq!['f'] {
        UserCommand::Fetch
    } else if a == seq!['D'] {
        UserCommand::Download
    } else if a == seq!['p'] {
        UserCommand::Parse
    } else {
        UserCommand::Default
    }
}

/// Pick the command an answer letter names.
pub fn select_command(answer: &str) -> (r: UserCommand)
    ensures
        r == command_for(answer@),
{
    let n = answer.unicode_len();
    if n != 1 {
        return UserCommand::Default;
    }
    let c = answer.get_char(0);
    proof {
        assert(answer@ =~= seq![answer@[0]]);
    }
    if c == 'i' {
        UserCommand::Init
    } else if c == 'f' {
        UserCommand::Fetch
    } else if c == 'D' {
        UserCommand::Download
    } else if c == 'p' {
        UserCommand::Parse
    } else {
        UserCommand::Default
    }
}

} // verus!
