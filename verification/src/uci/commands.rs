use vstd::prelude::*;
use crate::text::chars_of;

verus! {

broadcast use vstd::string::group_string_axioms;

/// The first word of `s` looked for from index `i` on: everything before the first space, or
/// all of `s` when it has none.
pub open spec fn token_from(s: Seq<char>, i: int) -> Seq<char>
    decreases s.len() - i,
{
    if i < 0 || i >= s.len() {
        s
    } else if s[i] == ' ' {
        s.take(i)
    } else {
        token_from(s, i + 1)
    }
}

/// The command word of a UCI command line.
pub open spec fn command_token(s: Seq<char>) -> Seq<char> {
    token_from(s, 0)
}

/// The lines the engine answers a command with: its name, author and `uciok` for `uci`,
/// `readyok` for `isready`, and nothing for any other command.
pub open spec fn reply_lines(cmd: Seq<char>) -> Seq<Seq<char>> {
    let tok = command_token(cmd);
    if tok == "uci"@ {
        seq!["id name Nelfusion"@, "id author Anany Tanwar"@, "uciok"@]
    } else if tok == "isready"@ {
        seq!["readyok"@]
    } else {
        seq![]
    }
}

/// The command word of `cmd`.
fn token_of(cmd: &Vec<char>) -> (t: Vec<char>)
    ensures
        t@ == command_token(cmd@),
{
    let mut t: Vec<char> = Vec::new();
    let mut i: usize = 0;
    while i < cmd.len()
        invariant
            i <= cmd@.len(),
            t@ == cmd@.take(i as int),
            command_token(cmd@) == token_from(cmd@, i as int),
        decreases cmd.len() - i,
    {
        if cmd[i] == ' ' {
            return t;
        }
        t.push(cmd[i]);
        i += 1;
        assert(t@ =~= cmd@.take(i as int));
    }
    assert(t@ =~= cmd@);
    t
}

/// Whether the characters of `t` spell `word`.
fn is_word(t: &Vec<char>, word: &str) -> (b: bool)
    ensures
        b == (t@ == word@),
{
    let w = chars_of(word);
    crate::text::same_chars(t, &w)
}

/// The reply lines for the command held in `cmd`.
pub(crate) fn reply_to(cmd: &Vec<char>) -> (lines: Vec<String>)
    ensures
        lines@.len() == reply_lines(cmd@).len(),
        forall|j: int| 0 <= j < lines@.len() ==> #[trigger] lines@[j]@ == reply_lines(cmd@)[j],
{
    let tok = token_of(cmd);
    let mut lines: Vec<String> = Vec::new();
    if is_word(&tok, "uci") {
        lines.push("id name Nelfusion".to_owned());
        lines.push("id author Anany Tanwar".to_owned());
        lines.push("uciok".to_owned());
    } else if is_word(&tok, "isready") {
        lines.push("readyok".to_owned());
    }
    lines
}

/// The lines the engine answers the UCI command `cmd` with, one string per line.
pub fn handle_command(cmd: &str) -> (lines: Vec<String>)
    ensures
        lines@.len() == reply_lines(cmd@).len(),
        forall|j: int| 0 <= j < lines@.len() ==> #[trigger] lines@[j]@ == reply_lines(cmd@)[j],
{
    let c = chars_of(cmd);
    reply_to(&c)
}

} // verus!
