use vstd::prelude::*;
use crate::text::{chars_of, is_ws, is_ws_exec, same_chars};
use crate::uci::commands::{reply_lines, reply_to};

verus! {

broadcast use vstd::string::group_string_axioms;

/// `s` without its leading white space.
pub open spec fn trim_start(s: Seq<char>) -> Seq<char>
    decreases s.len(),
{
    if s.len() > 0 && is_ws(s[0]) {
        trim_start(s.drop_first())
    } else {
        s
    }
}

/// `s` without its trailing white space.
pub open spec fn trim_end(s: Seq<char>) -> Seq<char>
    decreases s.len(),
{
    if s.len() > 0 && is_ws(s.last()) {
        trim_end(s.drop_last())
    } else {
        s
    }
}

/// `s` without white space at either end, as `str::trim` gives it.
pub open spec fn trim(s: Seq<char>) -> Seq<char> {
    trim_end(trim_start(s))
}

/// What the command loop does with one input line.
pub enum UciAction {
    /// The line is blank: read the next one.
    Skip,
    /// The line is `quit`: stop.
    Quit,
    /// Print these lines, then read the next one.
    Reply(Vec<String>),
}

/// The characters of `s` without white space at either end.
fn trimmed(s: &Vec<char>) -> (t: Vec<char>)
    ensures
        t@ == trim(s@),
{
    let n = s.len();
    let mut lo: usize = 0;
    assert(s@.subrange(0, n as int) =~= s@);
    while lo < n && is_ws_exec(s[lo])
        invariant
            lo <= n,
            n == s@.len(),
            trim_start(s@) == trim_start(s@.subrange(lo as int, n as int)),
        decreases n - lo,
    {
        assert(s@.subrange(lo as int, n as int).drop_first() =~= s@.subrange(lo + 1, n as int));
        lo += 1;
    }
    let ghost front = s@.subrange(lo as int, n as int);
    assert(trim_start(s@) == front);
    let mut hi: usize = n;
    while hi > lo && is_ws_exec(s[hi - 1])
        invariant
            lo <= hi <= n,
            n == s@.len(),
            front == s@.subrange(lo as int, n as int),
            trim_end(front) == trim_end(s@.subrange(lo as int, hi as int)),
        decreases hi - lo,
    {
        assert(s@.subrange(lo as int, hi as int).drop_last() =~= s@.subrange(lo as int, hi - 1));
        hi -= 1;
    }
    let mut t: Vec<char> = Vec::new();
    let mut i: usize = lo;
    while i < hi
        invariant
            lo <= i <= hi <= n,
            n == s@.len(),
            t@ == s@.subrange(lo as int, i as int),
        decreases hi - i,
    {
        t.push(s[i]);
        i += 1;
        assert(t@ =~= s@.subrange(lo as int, i as int));
    }
    t
}

/// Decides what the command loop does with the input line `line`: blank lines are skipped,
/// `quit` stops the loop, and any other line, trimmed, is answered as a command.
pub fn next_action(line: &str) -> (a: UciAction)
    ensures
        a is Skip <==> trim(line@).len() == 0,
        a is Quit <==> trim(line@) == "quit"@,
        a matches UciAction::Reply(v) ==> {
            &&& v@.len() == reply_lines(trim(line@)).len()
            &&& forall|j: int| 0 <= j < v@.len() ==> #[trigger] v@[j]@ == reply_lines(trim(line@))[j]
        },
{
    let chars = chars_of(line);
    let t = trimmed(&chars);
    proof {
        reveal_strlit("quit");
    }
    if t.len() == 0 {
        return UciAction::Skip;
    }
    let quit = chars_of("quit");
    if same_chars(&t, &quit) {
        return UciAction::Quit;
    }
    UciAction::Reply(reply_to(&t))
}

} // verus!
