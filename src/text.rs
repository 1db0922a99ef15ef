use vstd::prelude::*;
use vstd::string::StrSliceExecFns;

verus! {

/// Blank characters: they separate tokens and carry no meaning.
pub open spec fn is_space(c: char) -> bool {
    c == ' ' || c == '\t' || c == '\n' || c == '\r' || c == '\x0C'
}

pub open spec fn is_digit(c: char) -> bool {
    '0' <= c && c <= '9'
}

/// ASCII letters and digits.
pub open spec fn is_alnum(c: char) -> bool {
    is_digit(c) || ('a' <= c && c <= 'z') || ('A' <= c && c <= 'Z')
}

/// The one-character operator symbols.
pub open spec fn is_operator(c: char) -> bool {
    c == '*' || c == '+' || c == '-' || c == '/' || c == '='
}

pub open spec fn digit_value(c: char) -> int {
    (c as int) - ('0' as int)
}

pub open spec fn digit_char(d: int) -> char {
    (d + ('0' as int)) as char
}

/// The value of a run of decimal digits, most significant first.
pub open spec fn digits_value(ds: Seq<char>) -> int
    decreases ds.len(),
{
    if ds.len() == 0 {
        0
    } else {
        10 * digits_value(ds.drop_last()) + digit_value(ds.last())
    }
}

/// The decimal digits of a natural number, without leading zeros.
pub open spec fn digits_of(n: nat) -> Seq<char>
    decreases n,
{
    if n < 10 {
        seq![digit_char(n as int)]
    } else {
        digits_of(n / 10).push(digit_char((n % 10) as int))
    }
}

/// The decimal text of an integer, with a leading `-` when negative.
pub open spec fn decimal(n: int) -> Seq<char> {
    if n < 0 {
        seq!['-'] + digits_of((-n) as nat)
    } else {
        digits_of(n as nat)
    }
}

/// The length of the sign that a literal may start with: `+` or `-`.
pub open spec fn sign_len(w: Seq<char>) -> int {
    if w.len() > 0 && (w[0] == '-' || w[0] == '+') {
        1
    } else {
        0
    }
}

pub open spec fn all_digits(ds: Seq<char>) -> bool {
    forall|k: int| 0 <= k < ds.len() ==> is_digit(#[trigger] ds[k])
}

/// The text of a signed 64-bit integer literal: an optional `+` or `-`, then
/// one or more digits, with a value in range. `None` for any other text.
pub open spec fn int_literal(w: Seq<char>) -> Option<int> {
    let ds = w.subrange(sign_len(w), w.len() as int);
    let mag = digits_value(ds);
    let v = if w.len() > 0 && w[0] == '-' { -mag } else { mag };
    if ds.len() > 0 && all_digits(ds) && i64::MIN <= v <= i64::MAX {
        Some(v)
    } else {
        None
    }
}

pub fn is_space_char(c: char) -> (r: bool)
    ensures
        r == is_space(c),
{
    c == ' ' || c == '\t' || c == '\n' || c == '\r' || c == '\x0C'
}

pub fn is_digit_char(c: char) -> (r: bool)
    ensures
        r == is_digit(c),
{
    '0' <= c && c <= '9'
}

pub fn is_alnum_char(c: char) -> (r: bool)
    ensures
        r == is_alnum(c),
{
    ('0' <= c && c <= '9') || ('a' <= c && c <= 'z') || ('A' <= c && c <= 'Z')
}

pub fn is_operator_char(c: char) -> (r: bool)
    ensures
        r == is_operator(c),
{
    c == '*' || c == '+' || c == '-' || c == '/' || c == '='
}

/// Relies on String::push: the character is appended at the end.
#[verifier::external_body]
pub(crate) fn push_char(s: &mut String, c: char)
    ensures
        final(s)@ == old(s)@.push(c),
{
    s.push(c)
}

/// Appends the decimal digits of `n`.
pub fn push_digits(out: &mut String, n: u64)
    ensures
        final(out)@ == old(out)@ + digits_of(n as nat),
    decreases n,
{
    if n >= 10 {
        push_digits(out, n / 10);
    }
    let d = (n % 10) as u32;
    let c = ((d + ('0' as u32)) as u8) as char;
    assert(c == digit_char((n % 10) as int));
    push_char(out, c);
    assert(out@ =~= old(out)@ + digits_of(n as nat));
}

/// Appends the decimal text of `n`.
pub fn push_decimal(out: &mut String, n: i64)
    ensures
        final(out)@ == old(out)@ + decimal(n as int),
{
    if n < 0 {
        push_char(out, '-');
        let m: u64 = if n == i64::MIN {
            9223372036854775808u64
        } else {
            (-n) as u64
        };
        push_digits(out, m);
        assert(final(out)@ =~= old(out)@ + decimal(n as int));
    } else {
        push_digits(out, n as u64);
    }
}

/// The character classes that a run of characters may be made of.
#[derive(Clone, Copy)]
pub enum Run {
    Space,
    Alnum,
    Digit,
    NotQuote,
}

pub open spec fn in_run(k: Run, c: char) -> bool {
    match k {
        Run::Space => is_space(c),
        Run::Alnum => is_alnum(c),
        Run::Digit => is_digit(c),
        Run::NotQuote => c != '"',
    }
}

/// The end of the longest run of class `k` that starts at `i`.
pub open spec fn run_end(s: Seq<char>, i: int, k: Run) -> int
    decreases s.len() - i,
{
    if 0 <= i < s.len() && in_run(k, s[i]) {
        run_end(s, i + 1, k)
    } else {
        i
    }
}

pub proof fn lemma_run_end(s: Seq<char>, i: int, j: int, k: Run)
    requires
        0 <= i <= j <= s.len(),
        forall|m: int| i <= m < j ==> in_run(k, #[trigger] s[m]),
        j == s.len() || !in_run(k, s[j]),
    ensures
        run_end(s, i, k) == j,
    decreases j - i,
{
    if i < j {
        lemma_run_end(s, i + 1, j, k);
    }
}

fn in_run_char(k: Run, c: char) -> (r: bool)
    ensures
        r == in_run(k, c),
{
    match k {
        Run::Space => is_space_char(c),
        Run::Alnum => is_alnum_char(c),
        Run::Digit => is_digit_char(c),
        Run::NotQuote => c != '"',
    }
}

pub(crate) fn scan_run(s: &str, n: usize, i: usize, k: Run) -> (r: usize)
    requires
        n == s@.len(),
        i <= n,
    ensures
        r == run_end(s@, i as int, k),
        i <= r <= n,
        forall|m: int| i <= m < r ==> in_run(k, #[trigger] s@[m]),
        r < n ==> !in_run(k, s@[r as int]),
{
    let mut j = i;
    while j < n && in_run_char(k, s.get_char(j))
        invariant
            n == s@.len(),
            i <= j <= n,
            forall|m: int| i <= m < j ==> in_run(k, #[trigger] s@[m]),
        decreases n - j,
    {
        j = j + 1;
    }
    proof {
        lemma_run_end(s@, i as int, j as int, k);
    }
    j
}

/// The value of the digits `s[from..to]`, or `None` where it exceeds 2^63.
pub(crate) fn magnitude(s: &str, from: usize, to: usize) -> (r: Option<u64>)
    requires
        from <= to <= s@.len(),
        forall|m: int| from <= m < to ==> is_digit(#[trigger] s@[m]),
    ensures
        match r {
            Some(v) => v as int == digits_value(s@.subrange(from as int, to as int)) && v
                <= 9223372036854775808,
            None => digits_value(s@.subrange(from as int, to as int)) > 9223372036854775808,
        },
{
    let mut acc: u64 = 0;
    let mut big = false;
    let mut k = from;
    while k < to
        invariant
            from <= k <= to <= s@.len(),
            forall|m: int| from <= m < to ==> is_digit(#[trigger] s@[m]),
            !big ==> acc as int == digits_value(s@.subrange(from as int, k as int)),
            big ==> digits_value(s@.subrange(from as int, k as int)) > 9223372036854775808,
            acc <= 9223372036854775808,
        decreases to - k,
    {
        let c = s.get_char(k);
        assert(is_digit(s@[k as int]));
        let d = ((c as u32) - ('0' as u32)) as u64;
        assert(s@.subrange(from as int, k + 1).drop_last() =~= s@.subrange(from as int, k as int));
        if !big {
            if acc > 922337203685477580 || (acc == 922337203685477580 && d > 8) {
                big = true;
            } else {
                acc = acc * 10 + d;
            }
        }
        k = k + 1;
    }
    if big {
        None
    } else {
        Some(acc)
    }
}

/// The `i64` that is `m` taken as negative when `neg` holds.
pub(crate) fn signed(m: u64, neg: bool) -> (r: i64)
    requires
        m <= 9223372036854775808,
        !neg ==> m <= 9223372036854775807,
    ensures
        r as int == if neg { -(m as int) } else { m as int },
{
    if !neg {
        m as i64
    } else if m == 9223372036854775808 {
        i64::MIN
    } else {
        -(m as i64)
    }
}

} // verus!
