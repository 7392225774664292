use bozon_parser::{Atom, AtomKind, BracketKind, Span};

#[test]
fn simple() {
    assert_eq!(
        bozon_parser::program("()"),
        Ok(vec![Atom {
            prefix: None,
            kind: AtomKind::List(vec![], BracketKind::Round),
            span: Span::new(0, 2).unwrap()
        }])
    );

    assert_eq!(
        bozon_parser::program("( )"),
        Ok(vec![Atom {
            prefix: None,
            kind: AtomKind::List(vec![], BracketKind::Round),
            span: Span::new(0, 3).unwrap()
        }])
    );

    assert_eq!(
        bozon_parser::program("\t\r\n (\t\r\n )"),
        Ok(vec![Atom {
            prefix: None,
            kind: AtomKind::List(vec![], BracketKind::Round),
            span: Span::new(4, 10).unwrap()
        }])
    );
}

#[test]
fn span() {
    assert_eq!(
        bozon_parser::string(r#"""  "#),
        Ok(Atom {
            prefix: None,
            kind: AtomKind::String(r#""#.into()),
            span: Span::new(0, 2).unwrap()
        }),
    );
}

#[test]
fn ident() {
    assert_eq!(
        bozon_parser::ident("hellow").map(|atom| atom.kind),
        Ok(AtomKind::Ident("hellow".into())),
    );
    assert_eq!(
        bozon_parser::ident("1").map(|atom| atom.kind),
        Ok(AtomKind::Ident("1".into())),
    );
    assert_eq!(
        bozon_parser::ident("42 ").map(|atom| atom.kind),
        Ok(AtomKind::Ident("42".into())),
    );
}

#[test]
fn list_whitespaces() {
    assert_eq!(
        bozon_parser::program(r#"( "Hello")"#),
        Ok(vec![Atom {
            prefix: None,
            kind: AtomKind::List(
                vec![Atom {
                    prefix: None,
                    kind: AtomKind::String("Hello".into()),
                    span: Span::new(2, 9).unwrap()
                }],
                BracketKind::Round
            ),
            span: Span::new(0, 10).unwrap()
        }])
    );

    assert_eq!(
        bozon_parser::program("(1)"),
        Ok(vec![Atom {
            prefix: None,
            kind: AtomKind::List(
                vec![Atom {
                    prefix: None,
                    kind: AtomKind::Ident("1".into()),
                    span: Span::new(1, 2).unwrap()
                }],
                BracketKind::Round
            ),
            span: Span::new(0, 3).unwrap()
        }])
    );

    assert_eq!(
        bozon_parser::program("( 1)"),
        Ok(vec![Atom {
            prefix: None,
            kind: AtomKind::List(
                vec![Atom {
                    prefix: None,
                    kind: AtomKind::Ident("1".into()),
                    span: Span::new(2, 3).unwrap()
                }],
                BracketKind::Round
            ),
            span: Span::new(0, 4).unwrap()
        }])
    );

    assert_eq!(
        bozon_parser::program("(1 )"),
        Ok(vec![Atom {
            prefix: None,
            kind: AtomKind::List(
                vec![Atom {
                    prefix: None,
                    kind: AtomKind::Ident("1".into()),
                    span: Span::new(1, 2).unwrap()
                }],
                BracketKind::Round
            ),
            span: Span::new(0, 4).unwrap()
        }])
    );

    assert_eq!(
        bozon_parser::program("( 1 )"),
        Ok(vec![Atom {
            prefix: None,
            kind: AtomKind::List(
                vec![Atom {
                    prefix: None,
                    kind: AtomKind::Ident("1".into()),
                    span: Span::new(2, 3).unwrap()
                }],
                BracketKind::Round
            ),
            span: Span::new(0, 5).unwrap()
        }])
    );
}
