use vstd::prelude::*;
use vstd::string::{StrSliceExecFns, StringExecFns};
use crate::expr::print;
use crate::reader::{lisp, parse_lisp};
use crate::text::{is_space, push_char, run_end, scan_run, Run};

verus! {

/// What to do with one line of input.
#[derive(Debug, PartialEq, Eq)]
pub enum Reply {
    /// Nothing: the line was empty.
    Skip,
    /// Stop reading lines.
    Exit,
    /// Write this text as one line of output.
    Print(String),
}

pub enum SReply {
    Skip,
    Exit,
    Print(Seq<char>),
}

impl Reply {
    pub open spec fn view(&self) -> SReply {
        match self {
            Reply::Skip => SReply::Skip,
            Reply::Exit => SReply::Exit,
            Reply::Print(t) => SReply::Print(t@),
        }
    }
}

pub open spec fn decomma(s: Seq<char>) -> Seq<char> {
    Seq::new(s.len(), |k: int| if s[k] == ',' { ' ' } else { s[k] })
}

/// The end of `s[..j]` once trailing blanks are dropped.
pub open spec fn trim_end(s: Seq<char>, j: int) -> int
    decreases j,
{
    if 0 < j <= s.len() && is_space(s[j - 1]) {
        trim_end(s, j - 1)
    } else {
        j
    }
}

/// `s` with commas made blanks and leading and trailing blanks dropped.
pub open spec fn normalize(s: Seq<char>) -> Seq<char> {
    let t = decomma(s);
    let a = run_end(t, 0, Run::Space);
    let b = trim_end(t, t.len() as int);
    if a < b {
        t.subrange(a, b)
    } else {
        Seq::empty()
    }
}

pub open spec fn exit_word() -> Seq<char> {
    seq!['e', 'x', 'i', 't']
}

/// The reply to a line: an empty line is skipped; `exit` ends the session;
/// any other line is read as an expression and printed in canonical form,
/// or, where it cannot be read, printed back as it was normalized.
pub open spec fn reply_for(line: Seq<char>) -> SReply {
    let t = normalize(line);
    if line.len() == 0 {
        SReply::Skip
    } else if t == exit_word() {
        SReply::Exit
    } else {
        match lisp(t) {
            Some((e, _)) => SReply::Print(print(e)),
            None => SReply::Print(t),
        }
    }
}

/// Replaces commas with blanks and drops leading and trailing blanks.
pub fn normalize_line(line: &str) -> (r: String)
    ensures
        r@ == normalize(line@),
{
    let n = line.unicode_len();
    let mut t = String::new();
    let mut i: usize = 0;
    while i < n
        invariant
            n == line@.len(),
            0 <= i <= n,
            t@ == decomma(line@.subrange(0, i as int)),
        decreases n - i,
    {
        let c = line.get_char(i);
        if c == ',' {
            push_char(&mut t, ' ');
        } else {
            push_char(&mut t, c);
        }
        assert(t@ =~= decomma(line@.subrange(0, i + 1)));
        i = i + 1;
    }
    assert(line@.subrange(0, n as int) =~= line@);
    let ts = t.as_str();
    let a = scan_run(ts, n, 0, Run::Space);
    let mut b = n;
    while b > 0 && crate::text::is_space_char(ts.get_char(b - 1))
        invariant
            b <= n,
            n == ts@.len(),
            trim_end(ts@, n as int) == trim_end(ts@, b as int),
        decreases b,
    {
        b = b - 1;
    }
    if a < b {
        String::from_str(ts.substring_char(a, b))
    } else {
        String::new()
    }
}

/// Decides what to do with one line of input.
pub fn respond(line: &str) -> (r: Reply)
    ensures
        r@ == reply_for(line@),
{
    if line.unicode_len() == 0 {
        return Reply::Skip;
    }
    let t = normalize_line(line);
    let exit = String::from_str("exit");
    proof {
        reveal_strlit("exit");
        assert(exit@ =~= exit_word());
    }
    if t == exit {
        return Reply::Exit;
    }
    match parse_lisp(t.as_str()) {
        Ok((_, e)) => Reply::Print(e.render()),
        Err(_) => Reply::Print(t),
    }
}

} // verus!
