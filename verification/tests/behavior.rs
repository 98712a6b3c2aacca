//! Further behaviour: the error taxonomy with its source positions,
//! deterministic re-parsing, word-terminator boundaries, comments, line
//! continuations, pipes and whole programs.
use ixl::ast::Component;
use ixl::ast::Term;
use ixl::error::ErrorKind;
use ixl::scanner::Scanner;

fn with_scanner(s: &str) -> Scanner {
    Scanner::with_data(s).unwrap()
}

#[test]
fn empty_input_is_rejected() {
    let e = Scanner::new(Vec::new()).unwrap_err();
    assert_eq!(e.kind, ErrorKind::EmptyInput);
    assert_eq!(e.line, 1);
    assert_eq!(e.col, 1);
    assert_eq!(e.msg, "empty input");
}

#[test]
fn unterminated_braces_is_fatal() {
    let e = with_scanner("{unterminated").parse_string().unwrap_err();
    assert_eq!(e.kind, ErrorKind::UnterminatedBraces);
    assert_eq!(e.msg, "unterminated braces");
}

#[test]
fn unterminated_escape_is_fatal() {
    let e = with_scanner("abc\\").parse_term().unwrap_err();
    assert_eq!(e.kind, ErrorKind::UnterminatedEscape);
    assert_eq!(e.msg, "unterminated escape sequence");
}

#[test]
fn error_positions_are_one_based() {
    // the brace opens on line three and the input ends in column three
    let mut scanner = with_scanner("\n\n{u");
    scanner.parse_termspaces();
    let e = scanner.parse_string().unwrap_err();
    assert_eq!(e.kind, ErrorKind::UnterminatedBraces);
    assert_eq!(e.line, 3);
    assert_eq!(e.col, 3);
}

#[test]
fn expected_term_at_end_of_input() {
    let e = with_scanner("@").parse_command().unwrap_err();
    assert_eq!(e.kind, ErrorKind::ExpectedConstruct);
    assert_eq!(e.msg, "expected term, got eof");
}

#[test]
fn expected_command_after_separators() {
    // a command is required after separators; a trailing `;` leaves the
    // top-level loop looking at exhausted input
    let e = with_scanner("foo;").parse().unwrap_err();
    assert_eq!(e.kind, ErrorKind::ExpectedConstruct);
    assert_eq!(e.msg, "expected command, got eof");
}

#[test]
fn stray_closing_delimiter_is_fatal() {
    let e = with_scanner("]").parse().unwrap_err();
    assert_eq!(e.kind, ErrorKind::ExpectedConstruct);
    assert_eq!(e.msg, "expected command");

    let e2 = with_scanner("($ ]").parse().unwrap_err();
    assert_eq!(e2.kind, ErrorKind::ExpectedConstruct);
}

#[test]
fn parsing_twice_gives_identical_programs() {
    let text = "@'srv put -k '1 $val | sink [a $b] # done\nnext (one two)";
    let p1 = with_scanner(text).parse().unwrap();
    let p2 = with_scanner(text).parse().unwrap();
    assert_eq!(p1, p2);
}

#[test]
fn bareword_stops_before_terminators() {
    for (text, stop) in [
        ("foo;x", 3),
        ("foo\nx", 3),
        ("foo#x", 3),
        ("foo]x", 3),
        ("foo)x", 3),
        ("foo|x", 3),
        ("foo x", 3),
    ] {
        let mut scanner = with_scanner(text);
        let t = scanner.parse_term().unwrap();
        assert_eq!(t, Term::Interp(vec![Term::StringLiteral("foo".to_string())]));
        assert_eq!(scanner.index, stop, "terminator must not be consumed in {:?}", text);
    }
}

#[test]
fn escaped_terminator_is_consumed() {
    let t = with_scanner("foo\\;bar;x").parse_term().unwrap();
    assert_eq!(t, Term::Interp(vec![Term::StringLiteral("foo;bar".to_string())]));
}

#[test]
fn braces_unescape_backslashes() {
    let s = with_scanner("{a\\\\b}").parse_string().unwrap();
    assert_eq!(s, "a\\b");
    let v = with_scanner("${a b{}}").parse_term().unwrap();
    assert_eq!(v, Term::Variable("a b{}".to_string()));
}

#[test]
fn comments_separate_commands() {
    let p = with_scanner("foo # all of this is skipped\nbar").parse().unwrap();
    assert_eq!(p.commands.len(), 2);
    assert_eq!(
        p.commands[1].components[0],
        Component::Argument(Term::Interp(vec![Term::StringLiteral("bar".to_string())]))
    );
}

#[test]
fn line_continuation_joins_components() {
    let c = with_scanner("foo a \\\n b").parse_command().unwrap();
    assert_eq!(c.components.len(), 3);
    assert_eq!(
        c.components[2],
        Component::Argument(Term::Interp(vec![Term::StringLiteral("b".to_string())]))
    );
}

#[test]
fn pipe_may_follow_a_comment() {
    let c = with_scanner("foo # into\n| bar").parse_command().unwrap();
    assert!(c.pipe.is_some());
    let c2 = with_scanner("foo; | bar").parse_command().unwrap();
    assert!(c2.pipe.is_none());
}

#[test]
fn unterminated_group_ends_silently() {
    // end of input before the closing delimiter keeps what was read
    let p = with_scanner("(foo").parse().unwrap();
    assert_eq!(p.commands.len(), 1);
    match &p.commands[0].components[0] {
        Component::Argument(Term::Subst(cs)) => {
            assert_eq!(cs.len(), 1);
        }
        other => panic!("expected a substitution, got {:?}", other),
    }
}

#[test]
fn whole_program_structure() {
    let p = with_scanner("put -o '{x y}\nget $a | dec").parse().unwrap();
    assert_eq!(p.commands.len(), 2);
    assert_eq!(p.commands[0].components.len(), 3);
    assert_eq!(p.commands[0].components[1], Component::Flag("o".to_string()));
    assert_eq!(
        p.commands[0].components[2],
        Component::Argument(Term::StringLiteral("x y".to_string()))
    );
    assert!(p.commands[0].pipe.is_none());
    let piped = p.commands[1].pipe.as_ref().expect("second command pipes");
    assert_eq!(
        piped.components[0],
        Component::Argument(Term::Interp(vec![Term::StringLiteral("dec".to_string())]))
    );
}

#[test]
fn double_quote_without_brace_is_a_bareword() {
    let t = with_scanner("\"foo$x bar").parse_term().unwrap();
    assert_eq!(
        t,
        Term::Interp(vec![
            Term::StringLiteral("foo".to_string()),
            Term::Variable("x".to_string()),
        ])
    );
}

#[test]
fn variable_names_take_dashes_and_underscores() {
    let t = with_scanner("$a-b_c9.txt").parse_term().unwrap();
    assert_eq!(t, Term::Variable("a-b_c9".to_string()));
}
