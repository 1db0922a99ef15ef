use vstd::prelude::*;
use vstd::string::{StrSliceExecFns, StringExecFns};
use crate::text::{
    decimal, int_literal, is_digit, is_space, is_space_char, magnitude, push_char, push_decimal,
    scan_run, signed, Run,
};

verus! {

/// A token of the simple reader: a parenthesis, an integer or any other word.
#[derive(Debug, PartialEq, Eq)]
pub enum Token {
    LParen,
    RParen,
    Integer(i64),
    Symbol(String),
}

/// The mathematical model of a token.
pub enum SToken {
    LParen,
    RParen,
    Integer(int),
    Symbol(Seq<char>),
}

/// A line as a sequence of tokens.
pub struct Tokens(pub Vec<Token>);

/// The token that a word stands for: `(` and `)` are parentheses, an integer
/// literal is an integer, anything else is a symbol.
pub open spec fn classify(w: Seq<char>) -> SToken {
    if w == seq!['('] {
        SToken::LParen
    } else if w == seq![')'] {
        SToken::RParen
    } else {
        match int_literal(w) {
            Some(v) => SToken::Integer(v),
            None => SToken::Symbol(w),
        }
    }
}

pub open spec fn flush(cur: Seq<char>) -> Seq<Seq<char>> {
    if cur.len() == 0 {
        Seq::empty()
    } else {
        seq![cur]
    }
}

/// The words of `s` from position `i` on, where `cur` is the part of a word
/// already read: blanks separate words, and each parenthesis is a word of
/// its own.
pub open spec fn words_from(s: Seq<char>, i: int, cur: Seq<char>) -> Seq<Seq<char>>
    decreases s.len() - i,
{
    if !(0 <= i < s.len()) {
        flush(cur)
    } else if is_space(s[i]) {
        flush(cur) + words_from(s, i + 1, Seq::empty())
    } else if s[i] == '(' || s[i] == ')' {
        flush(cur) + seq![seq![s[i]]] + words_from(s, i + 1, Seq::empty())
    } else {
        words_from(s, i + 1, cur.push(s[i]))
    }
}

pub open spec fn words(s: Seq<char>) -> Seq<Seq<char>> {
    words_from(s, 0, Seq::empty())
}

pub open spec fn token_text(t: SToken) -> Seq<char> {
    match t {
        SToken::LParen => seq!['('],
        SToken::RParen => seq![')'],
        SToken::Integer(v) => decimal(v),
        SToken::Symbol(w) => w,
    }
}

/// The text of the `k`-th token: a parenthesis alone, any other token
/// followed by one space unless it is the last or comes before a `)`.
pub open spec fn piece(ts: Seq<SToken>, k: int) -> Seq<char> {
    match ts[k] {
        SToken::LParen => seq!['('],
        SToken::RParen => seq![')'],
        _ => if k + 1 < ts.len() && !(ts[k + 1] is RParen) {
            token_text(ts[k]).push(' ')
        } else {
            token_text(ts[k])
        },
    }
}

pub open spec fn render_upto(ts: Seq<SToken>, n: int) -> Seq<char>
    decreases n,
{
    if n <= 0 {
        Seq::empty()
    } else {
        render_upto(ts, n - 1) + piece(ts, n - 1)
    }
}

pub open spec fn render_tokens(ts: Seq<SToken>) -> Seq<char> {
    render_upto(ts, ts.len() as int)
}

/// Reads a signed 64-bit integer literal, as `str::parse::<i64>` does.
pub fn parse_int(w: &str) -> (r: Option<i64>)
    ensures
        match int_literal(w@) {
            Some(v) => r == Some(v as i64),
            None => r is None,
        },
{
    let n = w.unicode_len();
    if n == 0 {
        return None;
    }
    let c = w.get_char(0);
    let neg = c == '-';
    let start: usize = if c == '-' || c == '+' { 1 } else { 0 };
    let ghost ds = w@.subrange(start as int, n as int);
    if start >= n {
        return None;
    }
    let j = scan_run(w, n, start, Run::Digit);
    if j < n {
        assert(ds[j - start] == w@[j as int]);
        assert(!is_digit(ds[j - start]));
        return None;
    }
    assert forall|k: int| 0 <= k < ds.len() implies is_digit(#[trigger] ds[k]) by {
        assert(ds[k] == w@[start + k]);
    }
    match magnitude(w, start, n) {
        Some(m) => {
            if !neg && m > 9223372036854775807 {
                return None;
            }
            Some(signed(m, neg))
        },
        None => None,
    }
}

impl Token {
    pub open spec fn view(&self) -> SToken {
        match self {
            Token::LParen => SToken::LParen,
            Token::RParen => SToken::RParen,
            Token::Integer(v) => SToken::Integer(*v as int),
            Token::Symbol(w) => SToken::Symbol(w@),
        }
    }

    /// The token that the word `input` stands for.
    pub fn from_word(input: &str) -> (r: Token)
        ensures
            r@ == classify(input@),
    {
        let n = input.unicode_len();
        if n == 1 {
            let c = input.get_char(0);
            if c == '(' {
                assert(input@ =~= seq!['(']);
                return Token::LParen;
            }
            if c == ')' {
                assert(input@ =~= seq![')']);
                return Token::RParen;
            }
        }
        assert(input@ != seq!['('] && input@ != seq![')'] || n == 1) by {
            if input@ == seq!['('] || input@ == seq![')'] {
                assert(input@.len() == 1);
            }
        }
        match parse_int(input) {
            Some(v) => Token::Integer(v),
            None => Token::Symbol(String::from_str(input)),
        }
    }

    /// The text of this token.
    pub fn text(&self) -> (r: String)
        ensures
            r@ == token_text(self@),
    {
        let mut out = String::new();
        match self {
            Token::LParen => push_char(&mut out, '('),
            Token::RParen => push_char(&mut out, ')'),
            Token::Integer(v) => push_decimal(&mut out, *v),
            Token::Symbol(w) => out.append(w.as_str()),
        }
        assert(out@ =~= token_text(self@));
        out
    }
}

impl Tokens {
    pub open spec fn view(&self) -> Seq<SToken> {
        Seq::new(self.0@.len(), |k: int| self.0@[k]@)
    }

    /// The tokens, written out with the spacing of `piece`.
    pub fn render(&self) -> (r: String)
        ensures
            r@ == render_tokens(self@),
    {
        let ts = &self.0;
        let mut out = String::new();
        let mut i: usize = 0;
        while i < ts.len()
            invariant
                0 <= i <= ts.len(),
                ts == self.0,
                out@ == render_upto(self@, i as int),
            decreases ts.len() - i,
        {
            match &ts[i] {
                Token::LParen => push_char(&mut out, '('),
                Token::RParen => push_char(&mut out, ')'),
                t => {
                    let w = t.text();
                    out.append(w.as_str());
                    if i + 1 < ts.len() && !matches!(ts[i + 1], Token::RParen) {
                        push_char(&mut out, ' ');
                    }
                },
            }
            assert(out@ =~= render_upto(self@, i + 1));
            i = i + 1;
        }
        out
    }
}

/// Splits a line into tokens: blanks separate words, each parenthesis is a
/// word of its own, and each word is classified.
pub fn tokenize(line: &str) -> (r: Tokens)
    ensures
        r@.len() == words(line@).len(),
        forall|k: int| 0 <= k < r@.len() ==> r@[k] == classify(#[trigger] words(line@)[k]),
{
    let n = line.unicode_len();
    let ghost s = line@;
    let mut toks: Vec<Token> = Vec::new();
    let ghost mut done: Seq<Seq<char>> = Seq::empty();
    let mut start: usize = 0;
    let mut i: usize = 0;
    assert(s.subrange(0, 0) =~= Seq::<char>::empty());
    assert(done + words(s) =~= words(s));
    while i < n
        invariant
            n == s.len(),
            s == line@,
            0 <= start <= i <= n,
            done + words_from(s, i as int, s.subrange(start as int, i as int)) == words(s),
            toks@.len() == done.len(),
            forall|k: int| 0 <= k < done.len() ==> (#[trigger] toks@[k])@ == classify(done[k]),
        decreases n - i,
    {
        let c = line.get_char(i);
        let ghost cur = s.subrange(start as int, i as int);
        if is_space_char(c) || c == '(' || c == ')' {
            if start < i {
                toks.push(Token::from_word(line.substring_char(start, i)));
                proof {
                    done = done.push(cur);
                }
            }
            let ghost mid = done;
            if c == '(' {
                toks.push(Token::LParen);
                proof {
                    done = done.push(seq![c]);
                }
            } else if c == ')' {
                toks.push(Token::RParen);
                proof {
                    done = done.push(seq![c]);
                }
            }
            proof {
                assert(s.subrange(i + 1, i + 1) =~= Seq::<char>::empty());
                if is_space(c) {
                    assert(mid == done);
                } else {
                    assert(seq![c] =~= seq![s[i as int]]);
                }
                assert(done + words_from(s, i + 1, Seq::empty()) =~= words(s)) by {
                    let orig = words_from(s, i as int, cur);
                    if cur.len() > 0 {
                        assert(flush(cur) =~= seq![cur]);
                    }
                    if is_space(c) {
                        assert(orig == flush(cur) + words_from(s, i + 1, Seq::empty()));
                    } else {
                        assert(orig == flush(cur) + seq![seq![s[i as int]]] + words_from(s, i + 1, Seq::empty()));
                    }
                }
            }
            i = i + 1;
            start = i;
        } else {
            proof {
                assert(cur.push(s[i as int]) =~= s.subrange(start as int, i + 1));
            }
            i = i + 1;
        }
    }
    if start < i {
        toks.push(Token::from_word(line.substring_char(start, i)));
        proof {
            done = done.push(s.subrange(start as int, i as int));
        }
    }
    proof {
        assert(done =~= words(s));
    }
    Tokens(toks)
}

} // verus!
