use vstd::prelude::*;
use crate::expr::{views, Expr, SExpr};
use vstd::string::{StrSliceExecFns, StringExecFns};
use crate::text::{
    digits_value, is_alnum, is_alnum_char, is_digit, is_digit_char, is_operator,
    is_operator_char, is_space, is_space_char, magnitude, run_end, scan_run, signed, Run,
};

verus! {

/// A symbol ends at the end of input, at a blank or at a closing parenthesis.
pub open spec fn at_boundary(s: Seq<char>, i: int) -> bool {
    i >= s.len() || is_space(s[i]) || s[i] == ')'
}

pub open spec fn deref_name() -> Seq<char> {
    seq!['d', 'e', 'r', 'e', 'f']
}

/// `@name`, read as the list `(deref name)`.
pub open spec fn deref_at(s: Seq<char>, i: int) -> Option<(SExpr, int)> {
    let j = run_end(s, i + 1, Run::Alnum);
    if 0 <= i < s.len() && s[i] == '@' && j > i + 1 {
        Some(
            (
                SExpr::List(seq![SExpr::Symbol(deref_name()), SExpr::Symbol(s.subrange(i + 1, j))]),
                j,
            ),
        )
    } else {
        None
    }
}

/// Whether a number starts at `i`: a digit, or `-` followed by a digit.
pub open spec fn starts_number(s: Seq<char>, i: int) -> bool {
    0 <= i < s.len() && (is_digit(s[i]) || (s[i] == '-' && i + 1 < s.len() && is_digit(
        s[i + 1],
    )))
}

/// `-`? digit+, with its value in the range of `i64`.
pub open spec fn number_at(s: Seq<char>, i: int) -> Option<(SExpr, int)> {
    let neg = 0 <= i < s.len() && s[i] == '-';
    let start = if neg { i + 1 } else { i };
    let j = run_end(s, start, Run::Digit);
    let mag = digits_value(s.subrange(start, j));
    let v = if neg { -mag } else { mag };
    if starts_number(s, i) && i64::MIN <= v <= i64::MAX {
        Some((SExpr::Number(v), j))
    } else {
        None
    }
}

/// `"` text `"`, where the text holds no double quote.
pub open spec fn string_at(s: Seq<char>, i: int) -> Option<(SExpr, int)> {
    let j = run_end(s, i + 1, Run::NotQuote);
    if 0 <= i < s.len() && s[i] == '"' && j < s.len() {
        Some((SExpr::Str(s.subrange(i + 1, j)), j + 1))
    } else {
        None
    }
}

/// One operator character, or a run of letters and digits, either one
/// followed by a boundary.
pub open spec fn symbol_at(s: Seq<char>, i: int) -> Option<(SExpr, int)> {
    let j = if 0 <= i < s.len() && is_operator(s[i]) {
        i + 1
    } else {
        run_end(s, i, Run::Alnum)
    };
    if 0 <= i < s.len() && (is_operator(s[i]) || is_alnum(s[i])) && at_boundary(s, j) {
        Some((SExpr::Symbol(s.subrange(i, j)), j))
    } else {
        None
    }
}

/// The expression that starts at `i`, chosen by its first character, and the
/// position just after it.
pub open spec fn expr_at(s: Seq<char>, i: int) -> Option<(SExpr, int)>
    decreases s.len() - i, 1int,
{
    if i < 0 || i >= s.len() {
        None
    } else if s[i] == '@' {
        deref_at(s, i)
    } else if starts_number(s, i) {
        number_at(s, i)
    } else if s[i] == '"' {
        string_at(s, i)
    } else if is_operator(s[i]) || is_alnum(s[i]) {
        symbol_at(s, i)
    } else if s[i] == '(' {
        match items_at(s, i + 1) {
            Some((items, j)) => Some((SExpr::List(items), j)),
            None => None,
        }
    } else {
        None
    }
}

/// The children of a list whose `(` stands just before `i`, and the position
/// just after its `)`.
pub open spec fn items_at(s: Seq<char>, i: int) -> Option<(Seq<SExpr>, int)>
    decreases s.len() - i, 2int,
{
    if i < 0 || i >= s.len() {
        None
    } else if s[i] == ')' {
        Some((Seq::empty(), i + 1))
    } else if is_space(s[i]) {
        items_at(s, i + 1)
    } else {
        match expr_at(s, i) {
            None => None,
            Some((e, j)) => if j <= i || j > s.len() {
                None
            } else {
                match items_at(s, j) {
                    None => None,
                    Some((rest, m)) => Some((seq![e] + rest, m)),
                }
            },
        }
    }
}

/// A list: blanks, then `(`, its children and `)`.
pub open spec fn list_at(s: Seq<char>, i: int) -> Option<(SExpr, int)> {
    let k = run_end(s, i, Run::Space);
    if 0 <= k < s.len() && s[k] == '(' {
        match items_at(s, k + 1) {
            Some((items, j)) => Some((SExpr::List(items), j)),
            None => None,
        }
    } else {
        None
    }
}

/// A whole line: blanks, one expression, blanks. The position is where the
/// unread rest of the line starts.
pub open spec fn lisp(s: Seq<char>) -> Option<(SExpr, int)> {
    match expr_at(s, run_end(s, 0, Run::Space)) {
        Some((e, j)) => Some((e, run_end(s, j, Run::Space))),
        None => None,
    }
}

/// The grammar rules, as they are named in an error trace.
#[derive(Clone, Copy, Debug, PartialEq, Eq)]
pub enum Rule {
    Lisp,
    Expression,
    List,
    Number,
    Str,
    Symbol,
    Deref,
}

/// One step of an error trace: a rule that failed, and the position (in
/// characters) at which it was tried.
#[derive(Clone, Copy, Debug, PartialEq, Eq)]
pub struct Context {
    pub rule: Rule,
    pub at: usize,
}

/// A failed read, with the rules that were being tried, outermost first.
#[derive(Debug)]
pub struct ParseError {
    pub trace: Vec<Context>,
}

/// Every step of the trace lies between `i` and `n`, and there is one.
pub open spec fn placed_from(err: ParseError, i: int, n: int) -> bool {
    &&& err.trace@.len() > 0
    &&& forall|k: int| 0 <= k < err.trace@.len() ==> i <= (#[trigger] err.trace@[k]).at <= n
}

/// As `placed_from`, and the outermost step is `rule` tried at `i`.
pub open spec fn placed(err: ParseError, rule: Rule, i: int, n: int) -> bool {
    &&& placed_from(err, i, n)
    &&& err.trace@[0].rule == rule
    &&& err.trace@[0].at == i
}

pub open spec fn with_prefix(pre: Seq<SExpr>, r: Option<(Seq<SExpr>, int)>) -> Option<
    (Seq<SExpr>, int),
> {
    match r {
        Some((rest, m)) => Some((pre + rest, m)),
        None => None,
    }
}

fn fail(rule: Rule, at: usize) -> (err: ParseError)
    ensures
        err.trace@ == seq![Context { rule, at }],
{
    let mut trace = Vec::new();
    trace.push(Context { rule, at });
    ParseError { trace }
}

fn wrap(err: ParseError, rule: Rule, at: usize, n: usize) -> (r: ParseError)
    requires
        placed_from(err, at as int, n as int),
        at <= n,
    ensures
        placed(r, rule, at as int, n as int),
{
    let mut trace = err.trace;
    trace.insert(0, Context { rule, at });
    assert(forall|k: int| 0 < k < trace@.len() ==> trace@[k] == err.trace@[k - 1]);
    ParseError { trace }
}

fn owned(s: &str, from: usize, to: usize) -> (r: String)
    requires
        from <= to <= s@.len(),
    ensures
        r@ == s@.subrange(from as int, to as int),
{
    String::from_str(s.substring_char(from, to))
}

fn read_deref(s: &str, n: usize, i: usize) -> (r: Result<(Expr, usize), ParseError>)
    requires
        n == s@.len(),
        i < n,
        s@[i as int] == '@',
    ensures
        match r {
            Ok((e, j)) => deref_at(s@, i as int) == Some((e@, j as int)) && i < j <= n,
            Err(err) => deref_at(s@, i as int) is None && placed(err, Rule::Deref, i as int, n as int),
        },
{
    let j = scan_run(s, n, i + 1, Run::Alnum);
    if j == i + 1 {
        return Err(fail(Rule::Deref, i));
    }
    let head = String::from_str("deref");
    proof {
        reveal_strlit("deref");
    }
    let mut v = Vec::new();
    v.push(Expr::Symbol(head));
    v.push(Expr::Symbol(owned(s, i + 1, j)));
    let ghost items = v;
    let e = Expr::List(v);
    assert(e@ == SExpr::List(seq![SExpr::Symbol(deref_name()), SExpr::Symbol(s@.subrange(i + 1, j as int))])) by {
        assert(head@ =~= deref_name());
        Expr::lemma_list_view(items);
        assert(views(items@) =~= seq![SExpr::Symbol(deref_name()), SExpr::Symbol(s@.subrange(i + 1, j as int))]);
    }
    Ok((e, j))
}

fn read_number(s: &str, n: usize, i: usize) -> (r: Result<(Expr, usize), ParseError>)
    requires
        n == s@.len(),
        starts_number(s@, i as int),
    ensures
        match r {
            Ok((e, j)) => number_at(s@, i as int) == Some((e@, j as int)) && i < j <= n,
            Err(err) => number_at(s@, i as int) is None && placed(err, Rule::Number, i as int, n as int),
        },
{
    let neg = s.get_char(i) == '-';
    let start = if neg { i + 1 } else { i };
    let j = scan_run(s, n, start, Run::Digit);
    assert(j > start) by {
        assert(is_digit(s@[start as int]));
    }
    match magnitude(s, start, j) {
        Some(m) => {
            if !neg && m > 9223372036854775807 {
                return Err(fail(Rule::Number, i));
            }
            Ok((Expr::Number(signed(m, neg)), j))
        },
        None => Err(fail(Rule::Number, i)),
    }
}

fn read_string(s: &str, n: usize, i: usize) -> (r: Result<(Expr, usize), ParseError>)
    requires
        n == s@.len(),
        i < n,
        s@[i as int] == '"',
    ensures
        match r {
            Ok((e, j)) => string_at(s@, i as int) == Some((e@, j as int)) && i < j <= n,
            Err(err) => string_at(s@, i as int) is None && placed(err, Rule::Str, i as int, n as int),
        },
{
    let j = scan_run(s, n, i + 1, Run::NotQuote);
    if j >= n {
        return Err(fail(Rule::Str, i));
    }
    Ok((Expr::String(owned(s, i + 1, j)), j + 1))
}

fn read_symbol(s: &str, n: usize, i: usize) -> (r: Result<(Expr, usize), ParseError>)
    requires
        n == s@.len(),
        i < n,
        is_operator(s@[i as int]) || is_alnum(s@[i as int]),
    ensures
        match r {
            Ok((e, j)) => symbol_at(s@, i as int) == Some((e@, j as int)) && i < j <= n,
            Err(err) => symbol_at(s@, i as int) is None && placed(err, Rule::Symbol, i as int, n as int),
        },
{
    let j = if is_operator_char(s.get_char(i)) {
        i + 1
    } else {
        scan_run(s, n, i, Run::Alnum)
    };
    if j < n {
        let c = s.get_char(j);
        if !is_space_char(c) && c != ')' {
            return Err(fail(Rule::Symbol, i));
        }
    }
    Ok((Expr::Symbol(owned(s, i, j)), j))
}

fn read_expr(s: &str, n: usize, i: usize) -> (r: Result<(Expr, usize), ParseError>)
    requires
        n == s@.len(),
        i <= n,
    ensures
        match r {
            Ok((e, j)) => expr_at(s@, i as int) == Some((e@, j as int)) && i < j <= n,
            Err(err) => expr_at(s@, i as int) is None && placed(
                err,
                Rule::Expression,
                i as int,
                n as int,
            ),
        },
    decreases n - i, 1nat,
{
    if i >= n {
        return Err(fail(Rule::Expression, i));
    }
    let c = s.get_char(i);
    let r = if c == '@' {
        read_deref(s, n, i)
    } else if is_digit_char(c) || (c == '-' && i + 1 < n && is_digit_char(s.get_char(i + 1))) {
        read_number(s, n, i)
    } else if c == '"' {
        read_string(s, n, i)
    } else if is_operator_char(c) || is_alnum_char(c) {
        read_symbol(s, n, i)
    } else if c == '(' {
        read_list(s, n, i)
    } else {
        return Err(fail(Rule::Expression, i));
    };
    match r {
        Ok(x) => Ok(x),
        Err(err) => Err(wrap(err, Rule::Expression, i, n)),
    }
}

fn read_list(s: &str, n: usize, i: usize) -> (r: Result<(Expr, usize), ParseError>)
    requires
        n == s@.len(),
        i < n,
        s@[i as int] == '(',
    ensures
        match r {
            Ok((e, j)) => expr_at(s@, i as int) == Some((e@, j as int)) && i < j <= n,
            Err(err) => expr_at(s@, i as int) is None && placed(err, Rule::List, i as int, n as int),
        },
    decreases n - i, 0nat,
{
    match read_items(s, n, i + 1) {
        Ok((v, j)) => {
            proof {
                Expr::lemma_list_view(v);
            }
            Ok((Expr::List(v), j))
        },
        Err(err) => Err(wrap(err, Rule::List, i, n)),
    }
}

/// Reads the children of a list up to and including its `)`.
fn read_items(s: &str, n: usize, i: usize) -> (r: Result<(Vec<Expr>, usize), ParseError>)
    requires
        n == s@.len(),
        i <= n,
    ensures
        match r {
            Ok((v, j)) => items_at(s@, i as int) == Some((views(v@), j as int)) && i < j <= n,
            Err(err) => items_at(s@, i as int) is None && placed_from(err, i as int, n as int),
        },
    decreases n - i, 2nat,
{
    let mut acc: Vec<Expr> = Vec::new();
    let mut cur = i;
    loop
        invariant
            n == s@.len(),
            i <= cur <= n,
            items_at(s@, i as int) == with_prefix(views(acc@), items_at(s@, cur as int)),
        decreases n - cur,
    {
        if cur >= n {
            return Err(fail(Rule::List, n));
        }
        let c = s.get_char(cur);
        if c == ')' {
            assert(views(acc@) + Seq::empty() =~= views(acc@));
            return Ok((acc, cur + 1));
        }
        if is_space_char(c) {
            cur = cur + 1;
        } else {
            match read_expr(s, n, cur) {
                Err(err) => {
                    return Err(err);
                },
                Ok((e, j)) => {
                    let ghost before = views(acc@);
                    let ghost ev = e@;
                    acc.push(e);
                    proof {
                        assert(views(acc@) =~= before + seq![ev]);
                        match items_at(s@, j as int) {
                            Some((rest, m)) => {
                                assert(before + (seq![ev] + rest) =~= (before + seq![ev]) + rest);
                            },
                            None => {},
                        }
                    }
                    cur = j;
                },
            }
        }
    }
}

/// Reads one expression at the very start of `input`, and returns the unread
/// rest of it with the expression.
pub fn parse_expr(input: &str) -> (r: Result<(&str, Expr), ParseError>)
    ensures
        match expr_at(input@, 0) {
            Some((e, j)) => r matches Ok((rest, x)) && x@ == e && rest@ == input@.subrange(
                j,
                input@.len() as int,
            ),
            None => r matches Err(err) && placed(err, Rule::Expression, 0, input@.len() as int),
        },
{
    let n = input.unicode_len();
    match read_expr(input, n, 0) {
        Ok((e, j)) => Ok((input.substring_char(j, n), e)),
        Err(err) => Err(err),
    }
}

/// Reads a list, after optional blanks, at the start of `input`, and returns
/// the unread rest of it with the list.
pub fn parse_list(input: &str) -> (r: Result<(&str, Expr), ParseError>)
    ensures
        match list_at(input@, 0) {
            Some((e, j)) => r matches Ok((rest, x)) && x@ == e && rest@ == input@.subrange(
                j,
                input@.len() as int,
            ),
            None => r matches Err(err) && placed(err, Rule::List, 0, input@.len() as int),
        },
{
    let n = input.unicode_len();
    let k = scan_run(input, n, 0, Run::Space);
    if k >= n || input.get_char(k) != '(' {
        return Err(fail(Rule::List, 0));
    }
    match read_list(input, n, k) {
        Ok((e, j)) => Ok((input.substring_char(j, n), e)),
        Err(err) => Err(wrap(err, Rule::List, 0, n)),
    }
}

/// Reads one line: blanks, one expression, blanks. Returns the unread rest of
/// the line with the expression, or the trace of the rules that failed.
pub fn parse_lisp(input: &str) -> (r: Result<(&str, Expr), ParseError>)
    ensures
        match lisp(input@) {
            Some((e, j)) => r matches Ok((rest, x)) && x@ == e && rest@ == input@.subrange(
                j,
                input@.len() as int,
            ),
            None => r matches Err(err) && placed(err, Rule::Lisp, 0, input@.len() as int),
        },
{
    let n = input.unicode_len();
    let i = scan_run(input, n, 0, Run::Space);
    match read_expr(input, n, i) {
        Ok((e, j)) => {
            let k = scan_run(input, n, j, Run::Space);
            Ok((input.substring_char(k, n), e))
        },
        Err(err) => Err(wrap(err, Rule::Lisp, 0, n)),
    }
}

} // verus!
