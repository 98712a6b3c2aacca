//! The parser's original test suite: scanner consumption, string tokens,
//! terms, commands, blocks and interpolation.
use ixl::ast::Component;
use ixl::ast::Term;
use ixl::chars::CharPred;
use ixl::scanner::Scanner;

fn with_scanner(s: &str) -> Scanner {
    Scanner::with_data(s).unwrap()
}

#[test]
fn test_scanner() {
    let mut scanner = with_scanner("hello world");
    let result = scanner.consume(CharPred::Alphanumeric);
    assert_eq!(result, "hello");
}

#[test]
fn test_strings() {
    let mut scanner = with_scanner("{he{ll}o}\n{a\\{b}");
    let result1 = scanner.parse_string().unwrap();
    assert_eq!(result1, "he{ll}o");

    scanner.parse_termspaces();

    let result2 = scanner.parse_string().unwrap();
    assert_eq!(result2, "a{b");
}

#[test]
fn test_terms() {
    let mut scanner = with_scanner("$foo 'bar $");
    let result1 = scanner.parse_term().unwrap();
    assert_eq!(result1, Term::Variable("foo".to_string()));

    scanner.parse_termspaces();

    let result2 = scanner.parse_term().unwrap();
    assert_eq!(result2, Term::StringLiteral("bar".to_string()));
}

#[test]
fn test_dots() {
    let mut scanner = with_scanner("$ $");
    let result1 = scanner.parse_term().unwrap();
    assert_eq!(result1, Term::Variable("".to_string()));

    scanner.parse_termspaces();

    let result2 = scanner.parse_term().unwrap();
    assert_eq!(result2, Term::Variable("".to_string()));
}

#[test]
fn test_command() {
    let c1 = with_scanner("foo -a").parse_command().unwrap();
    assert!(c1.target.is_none());
    assert_eq!(c1.components.len(), 2);
    assert_eq!(
        c1.components[0],
        Component::Argument(Term::Interp(vec![Term::StringLiteral("foo".to_string())]))
    );
    assert_eq!(c1.components[1], Component::Flag("a".to_string()));

    let c2 = with_scanner("@'foo 'bar --why '1 $baz").parse_command().unwrap();
    assert_eq!(c2.target, Some(Term::StringLiteral("foo".to_string())));
    assert_eq!(c2.components.len(), 4);
    assert_eq!(c2.components[0], Component::Argument(Term::StringLiteral("bar".to_string())));
    assert_eq!(c2.components[1], Component::Flag("why".to_string()));
    assert_eq!(c2.components[2], Component::Argument(Term::StringLiteral("1".to_string())));
    assert_eq!(c2.components[3], Component::Argument(Term::Variable("baz".to_string())));

    let c3 = with_scanner("'foo | 'bar").parse_command().unwrap();
    match c3.pipe {
        Some(ref bar) => {
            assert_eq!(bar.components.len(), 1);
            assert_eq!(
                bar.components[0],
                Component::Argument(Term::StringLiteral("bar".to_string()))
            );
        }
        None => panic!("expected a pipe"),
    }
}

#[test]
fn test_block() {
    let b1 = with_scanner("[$ $]").parse_block().unwrap();
    match b1 {
        Term::Block(ref commands) => {
            assert_eq!(commands.len(), 1);
            assert_eq!(commands[0].components.len(), 2);
            assert_eq!(
                commands[0].components[0],
                Component::Argument(Term::Variable("".to_string()))
            );
            assert_eq!(
                commands[0].components[1],
                Component::Argument(Term::Variable("".to_string()))
            );
        }
        _ => panic!("expected a block"),
    }
}

#[test]
fn test_interp() {
    let i1 = with_scanner("foo/$.txt").parse_term().unwrap();
    assert_eq!(
        i1,
        Term::Interp(vec![
            Term::StringLiteral("foo/".to_string()),
            Term::Variable("".to_string()),
            Term::StringLiteral(".txt".to_string()),
        ])
    );

    let i2 = with_scanner("foo/$baz").parse_term().unwrap();
    assert_eq!(
        i2,
        Term::Interp(vec![
            Term::StringLiteral("foo/".to_string()),
            Term::Variable("baz".to_string()),
        ])
    );

    let i2b = with_scanner("\\$100").parse_term().unwrap();
    assert_eq!(i2b, Term::Interp(vec![Term::StringLiteral("$100".to_string())]));

    let i3 = with_scanner("foo/${}baz").parse_term().unwrap();
    assert_eq!(
        i3,
        Term::Interp(vec![
            Term::StringLiteral("foo/".to_string()),
            Term::Variable("".to_string()),
            Term::StringLiteral("baz".to_string()),
        ])
    );

    let i4 = with_scanner("foo/$(baz zot)").parse_term().unwrap();
    assert_eq!(
        i4,
        Term::Interp(vec![
            Term::StringLiteral("foo/".to_string()),
            Term::Subst(vec![ixl::ast::Command {
                target: None,
                components: vec![
                    Component::Argument(Term::Interp(vec![Term::StringLiteral(
                        "baz".to_string()
                    )])),
                    Component::Argument(Term::Interp(vec![Term::StringLiteral(
                        "zot".to_string()
                    )])),
                ],
                pipe: None,
            }]),
        ])
    );

    let i5 = with_scanner("\"{foo $bar baz}").parse_term().unwrap();
    assert_eq!(
        i5,
        Term::Interp(vec![
            Term::StringLiteral("foo ".to_string()),
            Term::Variable("bar".to_string()),
            Term::StringLiteral(" baz".to_string()),
        ])
    );

    let i6 = with_scanner("\"{foo {}$(baz zot)}").parse_term().unwrap();
    assert_eq!(
        i6,
        Term::Interp(vec![
            Term::StringLiteral("foo {}".to_string()),
            Term::Subst(vec![ixl::ast::Command {
                target: None,
                components: vec![
                    Component::Argument(Term::Interp(vec![Term::StringLiteral(
                        "baz".to_string()
                    )])),
                    Component::Argument(Term::Interp(vec![Term::StringLiteral(
                        "zot".to_string()
                    )])),
                ],
                pipe: None,
            }]),
        ])
    );
}
