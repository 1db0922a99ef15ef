use lispy::{normalize_line, respond, Reply};

#[test]
fn exit_command() {
    assert_eq!(respond("exit"), Reply::Exit);
    assert_eq!(respond("  exit "), Reply::Exit);
    assert_eq!(respond("(exit)"), Reply::Print("(exit)".to_string()));
}

#[test]
fn malformed_line_is_echoed() {
    assert_eq!(respond("(+ 1 2"), Reply::Print("(+ 1 2".to_string()));
    assert_eq!(respond("  (+ 1, 2  "), Reply::Print("(+ 1  2".to_string()));
}

#[test]
fn well_formed_line_is_canonical() {
    assert_eq!(respond("(+  1,2   3)"), Reply::Print("(+ 1 2 3)".to_string()));
    assert_eq!(respond("@abc"), Reply::Print("(deref abc)".to_string()));
}

#[test]
fn empty_line_is_skipped() {
    assert_eq!(respond(""), Reply::Skip);
    assert_eq!(respond("  "), Reply::Print("".to_string()));
}

#[test]
fn normalization() {
    assert_eq!(normalize_line(" a,b "), "a b");
    assert_eq!(normalize_line(",,"), "");
    assert_eq!(normalize_line("x"), "x");
}
