use lispy::{parse_expr, parse_lisp, parse_list, Expr, Rule};

fn sym(s: &str) -> Expr {
    Expr::Symbol(s.to_string())
}

#[test]
pub fn test_parse_num() {
    let to_parse = "(+ 1 2 3 4)";
    let actual = parse_list(to_parse);
    match actual {
        Ok(("", Expr::List(list))) => {
            let plus_sym = "+".to_string();
            assert_eq!(
                &list[..],
                [
                    Expr::Symbol(plus_sym),
                    Expr::Number(1),
                    Expr::Number(2),
                    Expr::Number(3),
                    Expr::Number(4)
                ]
            )
        }
        _ => panic!("Failed to parse: {to_parse}"),
    }
}

#[test]
pub fn test_parse_num_2() {
    let to_parse = "(+ 1234444)";
    let actual = parse_list(to_parse);
    match actual {
        Ok(("", Expr::List(list))) => {
            let plus_sym = "+".to_string();
            assert_eq!([Expr::Symbol(plus_sym), Expr::Number(1234444)], &list[..])
        }
        _ => panic!("Failed to parse: {to_parse}"),
    }
}

#[test]
pub fn test_parse_num_3() {
    let to_parse = "(+ (- 3 2) 4)";
    let actual = parse_lisp(to_parse);
    match actual {
        Ok(("", Expr::List(list))) => {
            let plus_sym = "+".to_string();
            let minus_sym = "-".to_string();
            assert_eq!(
                [
                    Expr::Symbol(plus_sym),
                    Expr::List(vec![
                        Expr::Symbol(minus_sym),
                        Expr::Number(3),
                        Expr::Number(2)
                    ]),
                    Expr::Number(4)
                ],
                &list[..]
            )
        }
        _ => panic!("Failed to parse: {to_parse}"),
    }
}

#[test]
fn negative_number_and_minus_symbol() {
    assert_eq!(parse_lisp("-5").unwrap().1, Expr::Number(-5));
    assert_eq!(parse_lisp("-").unwrap().1, sym("-"));
    assert_eq!(
        parse_lisp("(- 5)").unwrap().1,
        Expr::List(vec![sym("-"), Expr::Number(5)])
    );
}

#[test]
fn nested_list_prints_back() {
    let (rest, e) = parse_lisp("(+ (- 3 2) 4)").unwrap();
    assert_eq!(rest, "");
    assert_eq!(e.render(), "(+ (- 3 2) 4)");
}

#[test]
fn empty_list() {
    let (rest, e) = parse_lisp("()").unwrap();
    assert_eq!(rest, "");
    assert_eq!(e, Expr::List(vec![]));
    assert_eq!(e.render(), "()");
}

#[test]
fn deref_sugar() {
    let e = parse_lisp("@x").unwrap().1;
    assert_eq!(e, Expr::List(vec![sym("deref"), sym("x")]));
    assert_eq!(e.render(), "(deref x)");
}

#[test]
fn string_literal() {
    let e = parse_lisp("\"hello\"").unwrap().1;
    assert_eq!(e, Expr::String("hello".to_string()));
    assert_eq!(e.render(), "\"hello\"");
}

#[test]
fn unterminated_list_fails() {
    let err = parse_lisp("(+ 1 2").unwrap_err();
    assert_eq!(err.trace[0].rule, Rule::Lisp);
    assert_eq!(err.trace[0].at, 0);
    assert!(err.trace.iter().any(|c| c.rule == Rule::List));
}

#[test]
fn unterminated_string_fails() {
    let err = parse_lisp("\"abc").unwrap_err();
    assert_eq!(err.trace[0].rule, Rule::Lisp);
    assert_eq!(err.trace[1].rule, Rule::Expression);
    assert_eq!(err.trace[2].rule, Rule::Str);
}

#[test]
fn operator_glued_to_word_fails() {
    let err = parse_lisp("(-foo)").unwrap_err();
    assert!(err.trace.iter().any(|c| c.rule == Rule::Symbol && c.at == 1));
}

#[test]
fn word_glued_to_quote_fails() {
    assert!(parse_lisp("abc\"d\"").is_err());
}

#[test]
fn number_limits() {
    assert_eq!(
        parse_lisp("9223372036854775807").unwrap().1,
        Expr::Number(i64::MAX)
    );
    let min = parse_lisp("-9223372036854775808").unwrap().1;
    assert_eq!(min, Expr::Number(i64::MIN));
    assert_eq!(min.render(), "-9223372036854775808");
    let err = parse_lisp("9223372036854775808").unwrap_err();
    assert_eq!(err.trace[2].rule, Rule::Number);
    assert!(parse_lisp("-9223372036854775809").is_err());
}

#[test]
fn blanks_around_and_rest() {
    let (rest, e) = parse_lisp("  ( a   b )  c").unwrap();
    assert_eq!(rest, "c");
    assert_eq!(e.render(), "(a b)");
}

#[test]
fn blank_line_fails() {
    let err = parse_lisp("   ").unwrap_err();
    assert_eq!(err.trace[0].rule, Rule::Lisp);
    assert!(parse_lisp("").is_err());
}

#[test]
fn expr_at_start_keeps_rest() {
    let (rest, e) = parse_expr("12abc").unwrap();
    assert_eq!(e, Expr::Number(12));
    assert_eq!(rest, "abc");
    assert!(parse_expr(" 1").is_err());
}

#[test]
fn list_needs_parenthesis() {
    assert!(parse_list("abc").is_err());
    let (rest, e) = parse_list("  (x) y").unwrap();
    assert_eq!(rest, " y");
    assert_eq!(e, Expr::List(vec![sym("x")]));
}

#[test]
fn flat_list_round_trip() {
    let e = parse_lisp("(add   1  -2 \"s t\"   x)").unwrap().1;
    let text = e.render();
    assert_eq!(text, "(add 1 -2 \"s t\" x)");
    assert_eq!(parse_lisp(&text).unwrap().1.render(), text);
}

#[test]
fn printing_is_idempotent() {
    let first = parse_lisp(" ( foo  (bar 007 ) \"q\" @y () ) ").unwrap().1.render();
    assert_eq!(first, "(foo (bar 7) \"q\" (deref y) ())");
    let second = parse_lisp(&first).unwrap().1.render();
    assert_eq!(second, first);
}

#[test]
fn deref_of_digits_reads_back_as_number() {
    let first = parse_lisp("@0123").unwrap().1.render();
    assert_eq!(first, "(deref 0123)");
    let second = parse_lisp(&first).unwrap().1;
    assert_eq!(second, Expr::List(vec![sym("deref"), Expr::Number(123)]));
    assert_eq!(second.render(), "(deref 123)");
}
