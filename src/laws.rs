use vstd::prelude::*;
use crate::expr::{print, print_items, SExpr};
use crate::reader::{at_boundary, deref_name, expr_at, items_at, lisp};
use crate::text::{
    digit_char, digit_value, digits_of, digits_value, in_run, is_alnum, is_digit,
    is_operator, is_space, lemma_run_end, run_end, Run,
};

verus! {

/// A symbol name the reader can yield: one operator character, or a
/// non-empty run of letters and digits.
pub open spec fn symbol_name(t: Seq<char>) -> bool {
    (t.len() == 1 && is_operator(t[0])) || (t.len() > 0 && forall|k: int|
        0 <= k < t.len() ==> is_alnum(#[trigger] t[k]))
}

/// An expression of the shape that the reader yields: numbers in the range
/// of `i64`, strings without a double quote, symbols as `symbol_name` says.
pub open spec fn well_read(e: SExpr) -> bool
    decreases e,
{
    match e {
        SExpr::Number(n) => i64::MIN <= n <= i64::MAX,
        SExpr::Str(t) => forall|k: int| 0 <= k < t.len() ==> #[trigger] t[k] != '"',
        SExpr::Symbol(t) => symbol_name(t),
        SExpr::List(items) => forall|k: int| 0 <= k < items.len() ==> well_read(#[trigger] items[k]),
    }
}

/// No symbol in the expression starts with a digit.
pub open spec fn plain_names(e: SExpr) -> bool
    decreases e,
{
    match e {
        SExpr::Symbol(t) => t.len() > 0 && !is_digit(t[0]),
        SExpr::List(items) => forall|k: int|
            0 <= k < items.len() ==> plain_names(#[trigger] items[k]),
        _ => true,
    }
}

pub open spec fn readable(e: SExpr) -> bool {
    well_read(e) && plain_names(e)
}

/// `p` stands in `s` from position `i` on.
pub open spec fn occurs(s: Seq<char>, i: int, p: Seq<char>) -> bool {
    0 <= i && i + p.len() <= s.len() && s.subrange(i, i + p.len()) == p
}

proof fn lemma_occurs_at(s: Seq<char>, i: int, p: Seq<char>, k: int)
    requires
        occurs(s, i, p),
        0 <= k < p.len(),
    ensures
        s[i + k] == p[k],
{
    assert(s.subrange(i, i + p.len())[k] == s[i + k]);
}

proof fn lemma_occurs_split(s: Seq<char>, i: int, a: Seq<char>, b: Seq<char>)
    requires
        occurs(s, i, a + b),
    ensures
        occurs(s, i, a),
        occurs(s, i + a.len(), b),
{
    assert(s.subrange(i, i + a.len()) =~= (a + b).subrange(0, a.len() as int));
    assert((a + b).subrange(0, a.len() as int) =~= a);
    assert(s.subrange(i + a.len(), i + a.len() + b.len()) =~= (a + b).subrange(
        a.len() as int,
        (a + b).len() as int,
    ));
    assert((a + b).subrange(a.len() as int, (a + b).len() as int) =~= b);
}

proof fn lemma_digit_char(d: int)
    requires
        0 <= d < 10,
    ensures
        is_digit(digit_char(d)),
        digit_value(digit_char(d)) == d,
{
}

proof fn lemma_digits_of(m: nat)
    ensures
        digits_of(m).len() > 0,
        forall|k: int| 0 <= k < digits_of(m).len() ==> is_digit(#[trigger] digits_of(m)[k]),
        digits_value(digits_of(m)) == m,
    decreases m,
{
    if m < 10 {
        lemma_digit_char(m as int);
        assert(digits_of(m).drop_last() =~= Seq::<char>::empty());
        assert(digits_value(Seq::<char>::empty()) == 0);
        assert(digits_of(m).last() == digit_char(m as int));
    } else {
        lemma_digits_of(m / 10);
        lemma_digit_char((m % 10) as int);
        assert(digits_of(m).drop_last() =~= digits_of(m / 10));
        assert(digits_of(m).last() == digit_char((m % 10) as int));
        assert(m == 10 * (m / 10) + m % 10);
    }
}

/// The end of a run, and that the run is made of its class.
proof fn lemma_run_facts(s: Seq<char>, i: int, k: Run)
    requires
        0 <= i <= s.len(),
    ensures
        i <= run_end(s, i, k) <= s.len(),
        forall|m: int| i <= m < run_end(s, i, k) ==> in_run(k, #[trigger] s[m]),
        run_end(s, i, k) < s.len() ==> !in_run(k, s[run_end(s, i, k)]),
    decreases s.len() - i,
{
    if i < s.len() && in_run(k, s[i]) {
        lemma_run_facts(s, i + 1, k);
    }
}

proof fn lemma_print_first(e: SExpr)
    requires
        readable(e),
    ensures
        print(e).len() > 0,
        !is_space(print(e)[0]),
        print(e)[0] != ')',
{
    match e {
        SExpr::Number(n) => {
            if n < 0 {
                lemma_digits_of((-n) as nat);
            } else {
                lemma_digits_of(n as nat);
            }
        },
        SExpr::Symbol(t) => {},
        _ => {},
    }
}

proof fn lemma_print_items_front(items: Seq<SExpr>)
    requires
        items.len() >= 2,
    ensures
        print_items(items) == print(items[0]) + seq![' '] + print_items(
            items.subrange(1, items.len() as int),
        ),
    decreases items.len(),
{
    let n = items.len() as int;
    let front = items.subrange(0, n - 1);
    let back = items.subrange(1, n);
    if n == 2 {
        assert(front.len() == 1);
        assert(back.len() == 1);
        assert(front[0] == items[0]);
        assert(back[0] == items[1]);
        assert(print_items(front) == print(items[0]));
        assert(print_items(back) == print(items[1]));
        assert(print_items(items) == print_items(front) + seq![' '] + print(items[1]));
    } else {
        lemma_print_items_front(front);
        assert(front.subrange(1, n - 1) =~= back.subrange(0, n - 2));
        assert(front[0] == items[0]);
        assert(back[n - 2] == items[n - 1]);
        assert(print_items(back) == print_items(back.subrange(0, n - 2)) + seq![' '] + print(
            back[n - 2],
        ));
        assert(print_items(items) == print_items(front) + seq![' '] + print(items[n - 1]));
        assert(print_items(items) =~= print(items[0]) + seq![' '] + print_items(back));
    }
}

/// The canonical text of a readable expression, followed by a boundary,
/// reads back as that expression.
proof fn lemma_read_back(s: Seq<char>, i: int, e: SExpr)
    requires
        readable(e),
        occurs(s, i, print(e)),
        at_boundary(s, i + print(e).len()),
    ensures
        expr_at(s, i) == Some((e, i + print(e).len())),
    decreases e,
{
    let p = print(e);
    let j = i + p.len();
    lemma_print_first(e);
    lemma_occurs_at(s, i, p, 0);
    assert(j < s.len() ==> !is_digit(s[j]) && !is_alnum(s[j]) && s[j] != '"');
    match e {
        SExpr::Number(n) => {
            if n < 0 {
                let ds = digits_of((-n) as nat);
                lemma_digits_of((-n) as nat);
                lemma_occurs_split(s, i, seq!['-'], ds);
                lemma_occurs_at(s, i + 1, ds, 0);
                assert forall|m: int| i + 1 <= m < j implies in_run(Run::Digit, #[trigger] s[m]) by {
                    lemma_occurs_at(s, i + 1, ds, m - i - 1);
                }
                lemma_run_end(s, i + 1, j, Run::Digit);
            } else {
                let ds = digits_of(n as nat);
                lemma_digits_of(n as nat);
                assert forall|m: int| i <= m < j implies in_run(Run::Digit, #[trigger] s[m]) by {
                    lemma_occurs_at(s, i, ds, m - i);
                }
                lemma_run_end(s, i, j, Run::Digit);
            }
        },
        SExpr::Str(t) => {
            lemma_occurs_split(s, i, seq!['"'] + t, seq!['"']);
            lemma_occurs_split(s, i, seq!['"'], t);
            lemma_occurs_at(s, i + 1 + t.len(), seq!['"'], 0);
            assert forall|m: int| i + 1 <= m < i + 1 + t.len() implies in_run(
                Run::NotQuote,
                #[trigger] s[m],
            ) by {
                lemma_occurs_at(s, i + 1, t, m - i - 1);
            }
            lemma_run_end(s, i + 1, i + 1 + t.len(), Run::NotQuote);
        },
        SExpr::Symbol(t) => {
            if t.len() == 1 && is_operator(t[0]) {
                assert(s.subrange(i, i + 1) == t);
            } else {
                assert forall|m: int| i <= m < j implies in_run(Run::Alnum, #[trigger] s[m]) by {
                    lemma_occurs_at(s, i, t, m - i);
                }
                lemma_run_end(s, i, j, Run::Alnum);
            }
        },
        SExpr::List(items) => {
            let body = print_items(items);
            assert(p == seq!['('] + (body + seq![')'])) by {
                assert(p =~= seq!['('] + (body + seq![')']));
            }
            lemma_occurs_split(s, i, seq!['('], body + seq![')']);
            lemma_read_items(s, i + 1, items);
        },
    }
}

/// The canonical text of readable children, followed by `)`, reads back as
/// those children.
proof fn lemma_read_items(s: Seq<char>, j: int, items: Seq<SExpr>)
    requires
        forall|k: int| 0 <= k < items.len() ==> readable(#[trigger] items[k]),
        occurs(s, j, print_items(items) + seq![')']),
    ensures
        items_at(s, j) == Some((items, j + print_items(items).len() + 1)),
    decreases items,
{
    let body = print_items(items);
    lemma_occurs_split(s, j, body, seq![')']);
    lemma_occurs_at(s, j + body.len(), seq![')'], 0);
    if items.len() == 0 {
        assert(items =~= Seq::<SExpr>::empty());
    } else {
        let x = items[0];
        let rest = items.subrange(1, items.len() as int);
        let p = print(x);
        let j2 = j + p.len();
        lemma_print_first(x);
        if items.len() == 1 {
            lemma_read_back(s, j, x);
            lemma_occurs_at(s, j, p, 0);
            assert(items_at(s, j2) == Some((Seq::<SExpr>::empty(), j2 + 1)));
            assert(seq![x] + Seq::<SExpr>::empty() =~= items);
        } else {
            lemma_print_items_front(items);
            let tail = print_items(rest);
            assert(body == p + (seq![' '] + tail)) by {
                assert(body =~= p + (seq![' '] + tail));
            }
            lemma_occurs_split(s, j, p, seq![' '] + tail);
            lemma_occurs_at(s, j, p, 0);
            lemma_occurs_at(s, j2, seq![' '] + tail, 0);
            lemma_read_back(s, j, x);
            assert(body + seq![')'] =~= p + (seq![' '] + (tail + seq![')'])));
            lemma_occurs_split(s, j, p, seq![' '] + (tail + seq![')']));
            lemma_occurs_split(s, j2, seq![' '], tail + seq![')']);
            assert forall|k: int| 0 <= k < rest.len() implies readable(#[trigger] rest[k]) by {
                assert(rest[k] == items[k + 1]);
            }
            lemma_read_items(s, j2 + 1, rest);
            assert(items_at(s, j2) == items_at(s, j2 + 1));
            assert(seq![x] + rest =~= items);
        }
    }
}

proof fn lemma_yield(s: Seq<char>, i: int)
    ensures
        expr_at(s, i) matches Some((e, j)) ==> well_read(e) && i < j <= s.len(),
    decreases s.len() - i, 1int,
{
    if 0 <= i < s.len() {
        let c = s[i];
        if c == '@' {
            lemma_run_facts(s, i + 1, Run::Alnum);
            let j = run_end(s, i + 1, Run::Alnum);
            if j > i + 1 {
                let name = s.subrange(i + 1, j);
                assert forall|k: int| 0 <= k < name.len() implies is_alnum(#[trigger] name[k]) by {
                    assert(name[k] == s[i + 1 + k]);
                }
                let d = deref_name();
                assert forall|k: int| 0 <= k < d.len() implies is_alnum(#[trigger] d[k]) by {}
                let items = seq![SExpr::Symbol(d), SExpr::Symbol(name)];
                assert forall|k: int| 0 <= k < items.len() implies well_read(#[trigger] items[k]) by {}
            }
        } else if crate::reader::starts_number(s, i) {
            let start = if c == '-' { i + 1 } else { i };
            lemma_run_facts(s, start, Run::Digit);
        } else if c == '"' {
            lemma_run_facts(s, i + 1, Run::NotQuote);
            let j = run_end(s, i + 1, Run::NotQuote);
            let t = s.subrange(i + 1, j);
            assert forall|k: int| 0 <= k < t.len() implies #[trigger] t[k] != '"' by {
                assert(t[k] == s[i + 1 + k]);
            }
        } else if is_operator(c) || is_alnum(c) {
            if !is_operator(c) {
                lemma_run_facts(s, i, Run::Alnum);
                let j = run_end(s, i, Run::Alnum);
                let t = s.subrange(i, j);
                assert forall|k: int| 0 <= k < t.len() implies is_alnum(#[trigger] t[k]) by {
                    assert(t[k] == s[i + k]);
                }
            }
        } else if c == '(' {
            lemma_yield_items(s, i + 1);
        }
    }
}

proof fn lemma_yield_items(s: Seq<char>, i: int)
    ensures
        items_at(s, i) matches Some((items, j)) ==> i < j <= s.len() && forall|k: int|
            0 <= k < items.len() ==> well_read(#[trigger] items[k]),
    decreases s.len() - i, 2int,
{
    if 0 <= i < s.len() && s[i] != ')' {
        if is_space(s[i]) {
            lemma_yield_items(s, i + 1);
        } else {
            lemma_yield(s, i);
            if let Some((e, j)) = expr_at(s, i) {
                if i < j <= s.len() {
                    lemma_yield_items(s, j);
                    if let Some((rest, m)) = items_at(s, j) {
                        let all = seq![e] + rest;
                        assert forall|k: int| 0 <= k < all.len() implies well_read(
                            #[trigger] all[k],
                        ) by {
                            if k > 0 {
                                assert(all[k] == rest[k - 1]);
                            }
                        }
                    }
                }
            }
        }
    }
}

/// Reading the canonical text of an expression gives that expression back,
/// for every expression of the shape the reader yields whose symbols do not
/// start with a digit.
pub proof fn law_read_print(e: SExpr)
    requires
        readable(e),
    ensures
        lisp(print(e)) == Some((e, print(e).len() as int)),
{
    let s = print(e);
    lemma_print_first(e);
    lemma_run_end(s, 0, 0, Run::Space);
    assert(s.subrange(0, s.len() as int) =~= s);
    lemma_read_back(s, 0, e);
}

/// `items` laid out with blank runs: `gaps[k]` stands before `items[k]`, and
/// the last gap before the closing `)`.
pub open spec fn spaced_items(items: Seq<SExpr>, gaps: Seq<Seq<char>>) -> Seq<char>
    decreases items.len(),
{
    if items.len() == 0 {
        gaps[0] + seq![')']
    } else {
        gaps[0] + print(items[0]) + spaced_items(
            items.subrange(1, items.len() as int),
            gaps.subrange(1, gaps.len() as int),
        )
    }
}

pub open spec fn blanks(g: Seq<char>) -> bool {
    forall|k: int| 0 <= k < g.len() ==> is_space(#[trigger] g[k])
}

/// Gaps that fit `n` children: one more than the children, all blank, and
/// none empty between two children.
pub open spec fn fitting_gaps(gaps: Seq<Seq<char>>, n: int) -> bool {
    &&& gaps.len() == n + 1
    &&& forall|k: int| 0 <= k < gaps.len() ==> blanks(#[trigger] gaps[k])
    &&& forall|k: int| 1 <= k < n ==> (#[trigger] gaps[k]).len() > 0
}

proof fn lemma_skip_blanks(s: Seq<char>, j: int, g: Seq<char>)
    requires
        blanks(g),
        occurs(s, j, g),
        j + g.len() < s.len(),
    ensures
        items_at(s, j) == items_at(s, j + g.len()),
    decreases g.len(),
{
    if g.len() > 0 {
        lemma_occurs_at(s, j, g, 0);
        let g2 = g.subrange(1, g.len() as int);
        assert(s.subrange(j + 1, j + 1 + g2.len()) =~= g2);
        lemma_skip_blanks(s, j + 1, g2);
    }
}

proof fn lemma_read_spaced(s: Seq<char>, j: int, items: Seq<SExpr>, gaps: Seq<Seq<char>>)
    requires
        forall|k: int| 0 <= k < items.len() ==> readable(#[trigger] items[k]),
        fitting_gaps(gaps, items.len() as int),
        occurs(s, j, spaced_items(items, gaps)),
    ensures
        items_at(s, j) == Some((items, j + spaced_items(items, gaps).len())),
    decreases items.len(),
{
    let g = gaps[0];
    let m = j + g.len();
    if items.len() == 0 {
        lemma_occurs_split(s, j, g, seq![')']);
        lemma_occurs_at(s, m, seq![')'], 0);
        lemma_skip_blanks(s, j, g);
        assert(items =~= Seq::<SExpr>::empty());
    } else {
        let x = items[0];
        let p = print(x);
        let rest = items.subrange(1, items.len() as int);
        let gs = gaps.subrange(1, gaps.len() as int);
        let tail = spaced_items(rest, gs);
        assert(spaced_items(items, gaps) == g + (p + tail)) by {
            assert(spaced_items(items, gaps) =~= g + (p + tail));
        }
        lemma_occurs_split(s, j, g, p + tail);
        lemma_occurs_split(s, m, p, tail);
        lemma_print_first(x);
        lemma_occurs_at(s, m, p, 0);
        lemma_skip_blanks(s, j, g);
        assert forall|k: int| 0 <= k < rest.len() implies readable(#[trigger] rest[k]) by {
            assert(rest[k] == items[k + 1]);
        }
        assert forall|k: int| 0 <= k < gs.len() implies blanks(#[trigger] gs[k]) by {
            assert(gs[k] == gaps[k + 1]);
        }
        assert forall|k: int| 1 <= k < rest.len() implies (#[trigger] gs[k]).len() > 0 by {
            assert(gs[k] == gaps[k + 1]);
        }
        let j2 = m + p.len();
        if rest.len() == 0 {
            assert(tail == gs[0] + seq![')']);
        } else {
            assert(tail == gs[0] + (print(rest[0]) + spaced_items(
                rest.subrange(1, rest.len() as int),
                gs.subrange(1, gs.len() as int),
            ))) by {
                assert(tail =~= gs[0] + (print(rest[0]) + spaced_items(
                    rest.subrange(1, rest.len() as int),
                    gs.subrange(1, gs.len() as int),
                )));
            }
            assert(gs[0].len() > 0);
        }
        lemma_occurs_at(s, j2, tail, 0);
        lemma_read_back(s, m, x);
        lemma_read_spaced(s, j2, rest, gs);
        assert(seq![x] + rest =~= items);
    }
}

/// A flat list, a symbol followed by atoms, written with any blank runs
/// around its elements (at least one blank between two of them), reads as
/// that list, so that printing it gives the list's canonical text.
pub proof fn law_flat_list_round_trip(head: Seq<char>, atoms: Seq<SExpr>, gaps: Seq<Seq<char>>)
    requires
        symbol_name(head),
        !is_digit(head[0]),
        forall|k: int| 0 <= k < atoms.len() ==> !(#[trigger] atoms[k] is List) && readable(atoms[k]),
        fitting_gaps(gaps, atoms.len() + 1int),
    ensures
        ({
            let items = seq![SExpr::Symbol(head)] + atoms;
            let input = seq!['('] + spaced_items(items, gaps);
            lisp(input) == Some((SExpr::List(items), input.len() as int))
        }),
{
    let items = seq![SExpr::Symbol(head)] + atoms;
    let body = spaced_items(items, gaps);
    let input = seq!['('] + body;
    assert forall|k: int| 0 <= k < items.len() implies readable(#[trigger] items[k]) by {
        if k > 0 {
            assert(items[k] == atoms[k - 1]);
        }
    }
    lemma_run_end(input, 0, 0, Run::Space);
    assert(input.subrange(0, input.len() as int) =~= input);
    lemma_occurs_split(input, 0, seq!['('], body);
    lemma_read_spaced(input, 1, items, gaps);
}

/// Printing what was read, reading that text again and printing the result
/// gives the same text, for every line that reads and whose symbols do not
/// start with a digit.
pub proof fn law_print_idempotent(s: Seq<char>)
    requires
        lisp(s) matches Some((e, _)) && plain_names(e),
    ensures
        lisp(s) matches Some((e, _)) && lisp(print(e)) matches Some((r, _)) && print(r) == print(e),
{
    lemma_yield(s, run_end(s, 0, Run::Space));
    if let Some((e, _)) = lisp(s) {
        law_read_print(e);
    }
}

} // verus!
