use bozon_parser::{
    ident, prefix, program, program_within, string, Atom, AtomKind, BracketKind, Expected,
    ParseError, PrefixKind, Span, SpanRangeError, SyntaxError, MAX_NESTING,
};

fn at(start: usize, end: usize) -> Span {
    Span::new(start, end).unwrap()
}

fn word(text: &str, start: usize, end: usize) -> Atom {
    Atom { prefix: None, kind: AtomKind::Ident(text.into()), span: at(start, end) }
}

fn list(items: Vec<Atom>, bracket: BracketKind, start: usize, end: usize) -> Atom {
    Atom { prefix: None, kind: AtomKind::List(items, bracket), span: at(start, end) }
}

fn syntax(offset: usize, expected: Expected) -> ParseError {
    ParseError::Syntax(SyntaxError { offset, expected })
}

const NOTHING: Expected = Expected {
    prefix: false,
    list: false,
    string: false,
    ident: false,
    close: None,
    end: false,
};

const ELEMENT: Expected = Expected {
    prefix: true,
    list: true,
    string: true,
    ident: true,
    close: None,
    end: false,
};

/// The kinds of a forest with every span set to zero, to compare shapes.
fn without_spans(atoms: Vec<Atom>) -> Vec<Atom> {
    atoms
        .into_iter()
        .map(|atom| Atom {
            prefix: atom.prefix,
            kind: match atom.kind {
                AtomKind::List(items, bracket) => AtomKind::List(without_spans(items), bracket),
                other => other,
            },
            span: at(0, 0),
        })
        .collect()
}

#[test]
fn call_form() {
    assert_eq!(
        program("(+ 1 1)"),
        Ok(vec![list(
            vec![word("+", 1, 2), word("1", 3, 4), word("1", 5, 6)],
            BracketKind::Round,
            0,
            7
        )])
    );
}

#[test]
fn empty_source() {
    assert_eq!(program(""), Ok(vec![]));
    assert_eq!(program(" \t\r\n"), Ok(vec![]));
}

#[test]
fn top_level_sequence() {
    assert_eq!(
        program("a \"b\"c"),
        Ok(vec![
            word("a", 0, 1),
            Atom { prefix: None, kind: AtomKind::String("b".into()), span: at(2, 5) },
            word("c", 5, 6),
        ])
    );
}

#[test]
fn bracket_kinds() {
    assert_eq!(program("{}"), Ok(vec![list(vec![], BracketKind::Curly, 0, 2)]));
    assert_eq!(program("[]"), Ok(vec![list(vec![], BracketKind::Square, 0, 2)]));
    assert_eq!(
        program("([{x}])"),
        Ok(vec![list(
            vec![list(
                vec![list(vec![word("x", 3, 4)], BracketKind::Curly, 2, 5)],
                BracketKind::Square,
                1,
                6
            )],
            BracketKind::Round,
            0,
            7
        )])
    );
}

#[test]
fn list_span_takes_in_trailing_whitespace() {
    assert_eq!(program("() "), Ok(vec![list(vec![], BracketKind::Round, 0, 3)]));
    assert_eq!(
        program("(() )\n"),
        Ok(vec![list(vec![list(vec![], BracketKind::Round, 1, 4)], BracketKind::Round, 0, 6)])
    );
    assert_eq!(program("a  "), Ok(vec![word("a", 0, 1)]));
}

#[test]
fn prefix_markers() {
    assert_eq!(prefix("'x"), Ok(PrefixKind::Quote));
    assert_eq!(prefix("`x"), Ok(PrefixKind::QuasiQuote));
    assert_eq!(prefix(",x"), Ok(PrefixKind::Unquote));
    assert_eq!(prefix(","), Ok(PrefixKind::Unquote));
    assert_eq!(prefix(",@x"), Ok(PrefixKind::UnquoteSplicing));
    assert_eq!(
        prefix("x"),
        Err(SyntaxError { offset: 0, expected: Expected { prefix: true, ..NOTHING } })
    );
    assert_eq!(
        prefix(""),
        Err(SyntaxError { offset: 0, expected: Expected { prefix: true, ..NOTHING } })
    );
}

#[test]
fn prefixed_atoms() {
    assert_eq!(
        program("'a `b ,c ,@d"),
        Ok(vec![
            Atom {
                prefix: Some(PrefixKind::Quote),
                kind: AtomKind::Ident("a".into()),
                span: at(0, 2)
            },
            Atom {
                prefix: Some(PrefixKind::QuasiQuote),
                kind: AtomKind::Ident("b".into()),
                span: at(3, 5)
            },
            Atom {
                prefix: Some(PrefixKind::Unquote),
                kind: AtomKind::Ident("c".into()),
                span: at(6, 8)
            },
            Atom {
                prefix: Some(PrefixKind::UnquoteSplicing),
                kind: AtomKind::Ident("d".into()),
                span: at(9, 12)
            },
        ])
    );
}

#[test]
fn longest_prefix_marker_wins() {
    assert_eq!(
        program(",@rest"),
        Ok(vec![Atom {
            prefix: Some(PrefixKind::UnquoteSplicing),
            kind: AtomKind::Ident("rest".into()),
            span: at(0, 6)
        }])
    );
    assert_eq!(
        program(", @rest"),
        Ok(vec![Atom {
            prefix: Some(PrefixKind::Unquote),
            kind: AtomKind::Ident("@rest".into()),
            span: at(0, 7)
        }])
    );
}

#[test]
fn whitespace_between_prefix_and_atom() {
    assert_eq!(
        program("' a"),
        Ok(vec![Atom {
            prefix: Some(PrefixKind::Quote),
            kind: AtomKind::Ident("a".into()),
            span: at(0, 3)
        }])
    );
    assert_eq!(
        program("'\n\"s\""),
        Ok(vec![Atom {
            prefix: Some(PrefixKind::Quote),
            kind: AtomKind::String("s".into()),
            span: at(0, 5)
        }])
    );
    assert_eq!(
        program("` (a)"),
        Ok(vec![Atom {
            prefix: Some(PrefixKind::QuasiQuote),
            kind: AtomKind::List(vec![word("a", 3, 4)], BracketKind::Round),
            span: at(0, 5)
        }])
    );
}

#[test]
fn only_one_prefix_per_atom() {
    assert_eq!(
        program("''a"),
        Ok(vec![Atom {
            prefix: Some(PrefixKind::Quote),
            kind: AtomKind::Ident("'a".into()),
            span: at(0, 3)
        }])
    );
    assert_eq!(program("a'b"), Ok(vec![word("a'b", 0, 3)]));
}

#[test]
fn string_literals() {
    assert_eq!(
        string("\"a b\" c"),
        Ok(Atom { prefix: None, kind: AtomKind::String("a b".into()), span: at(0, 5) })
    );
    assert_eq!(
        string(r#""a\" b"#),
        Ok(Atom { prefix: None, kind: AtomKind::String("a\\".into()), span: at(0, 4) })
    );
    assert_eq!(
        program("\"(not a list)\""),
        Ok(vec![Atom {
            prefix: None,
            kind: AtomKind::String("(not a list)".into()),
            span: at(0, 14)
        }])
    );
}

#[test]
fn string_rule_errors() {
    let expected = Expected { string: true, ..NOTHING };
    assert_eq!(string("abc"), Err(syntax(0, expected)));
    assert_eq!(string(""), Err(syntax(0, expected)));
    assert_eq!(string(" \"a\""), Err(syntax(0, expected)));
    assert_eq!(string("\"abc"), Err(syntax(4, expected)));
}

#[test]
fn ident_rule() {
    assert_eq!(ident("hello world"), Ok(word("hello", 0, 5)));
    assert_eq!(ident("a(b"), Ok(word("a", 0, 1)));
    assert_eq!(ident("\"quoted\""), Ok(word("\"quoted\"", 0, 8)));
    let expected = Expected { ident: true, ..NOTHING };
    assert_eq!(ident(""), Err(syntax(0, expected)));
    assert_eq!(ident(" a"), Err(syntax(0, expected)));
    assert_eq!(ident(")"), Err(syntax(0, expected)));
}

#[test]
fn unclosed_quote_starts_an_identifier() {
    assert_eq!(program("\"abc"), Ok(vec![word("\"abc", 0, 4)]));
    assert_eq!(program("\"a b"), Ok(vec![word("\"a", 0, 2), word("b", 3, 4)]));
}

#[test]
fn offsets_count_bytes() {
    assert_eq!(
        program("(λ \"héllo\" x)"),
        Ok(vec![list(
            vec![
                word("λ", 1, 3),
                Atom { prefix: None, kind: AtomKind::String("héllo".into()), span: at(4, 12) },
                word("x", 13, 14),
            ],
            BracketKind::Round,
            0,
            15
        )])
    );
    assert_eq!(ident("日本語 x"), Ok(word("日本語", 0, 9)));
}

#[test]
fn other_unicode_spaces_are_identifier_characters() {
    assert_eq!(program("a\u{a0}b"), Ok(vec![word("a\u{a0}b", 0, 4)]));
    assert_eq!(program("a\u{b}b"), Ok(vec![word("a\u{b}b", 0, 3)]));
}

#[test]
fn unclosed_list() {
    let expected = Expected { close: Some(BracketKind::Round), ..ELEMENT };
    assert_eq!(program("("), Err(syntax(1, expected)));
    assert_eq!(program("(a b"), Err(syntax(4, expected)));
    assert_eq!(program("(a b  "), Err(syntax(6, expected)));
    assert_eq!(
        program("(a [b"),
        Err(syntax(5, Expected { close: Some(BracketKind::Square), ..ELEMENT }))
    );
}

#[test]
fn mismatched_bracket() {
    assert_eq!(
        program("(a]"),
        Err(syntax(2, Expected { close: Some(BracketKind::Round), ..ELEMENT }))
    );
    assert_eq!(
        program("{ (x } )"),
        Err(syntax(5, Expected { close: Some(BracketKind::Round), ..ELEMENT }))
    );
}

#[test]
fn stray_closing_bracket() {
    let expected = Expected { end: true, ..ELEMENT };
    assert_eq!(program(")"), Err(syntax(0, expected)));
    assert_eq!(program("a b ) c"), Err(syntax(4, expected)));
    assert_eq!(program("(a))"), Err(syntax(3, expected)));
}

#[test]
fn prefix_without_atom() {
    let expected = Expected { prefix: false, ..ELEMENT };
    assert_eq!(program("'"), Err(syntax(1, expected)));
    assert_eq!(program("a ,@  "), Err(syntax(6, expected)));
    assert_eq!(program("(')"), Err(syntax(2, expected)));
}

#[test]
fn failure_yields_no_atoms() {
    assert!(program("(a) (b) (c").is_err());
    assert!(program("a b c )").is_err());
}

#[test]
fn same_input_same_result() {
    let src = "(define (f x) '(x ,@y \"z\")) [1 {2 3}] )";
    assert_eq!(program(src), program(src));
    let ok = "(define (f x) '(x ,@y \"z\")) [1 {2 3}]";
    assert_eq!(program(ok), program(ok));
    assert!(program(ok).is_ok());
}

#[test]
fn empty_string_literal_with_trailing_whitespace() {
    let atom = string("\"\" \t\n").unwrap();
    assert_eq!(atom.kind, AtomKind::String(String::new()));
    assert_eq!(atom.span.len(), 2);
}

#[test]
fn oversized_identifier() {
    let longest = "a".repeat(65535);
    assert_eq!(program(&longest), Ok(vec![word(&longest, 0, 65535)]));
    let too_long = "a".repeat(65536);
    assert_eq!(
        program(&too_long),
        Err(ParseError::SpanRange(SpanRangeError { start: 0, end: 65536 }))
    );
    assert_eq!(
        ident(&too_long),
        Err(ParseError::SpanRange(SpanRangeError { start: 0, end: 65536 }))
    );
}

#[test]
fn oversized_string_literal() {
    let src = format!("x \"{}\"", "s".repeat(65534));
    assert_eq!(
        program(&src),
        Err(ParseError::SpanRange(SpanRangeError { start: 2, end: 65538 }))
    );
    let literal = format!("\"{}\"", "s".repeat(65534));
    assert_eq!(
        string(&literal),
        Err(ParseError::SpanRange(SpanRangeError { start: 0, end: 65536 }))
    );
}

#[test]
fn oversized_list() {
    let src = format!("({})", "ab ".repeat(30000));
    assert_eq!(
        program(&src),
        Err(ParseError::SpanRange(SpanRangeError { start: 0, end: 90002 }))
    );
}

#[test]
fn first_failure_wins() {
    let src = format!("{} )", "a".repeat(65536));
    assert_eq!(
        program(&src),
        Err(ParseError::SpanRange(SpanRangeError { start: 0, end: 65536 }))
    );
    let src = format!(") {}", "a".repeat(65536));
    assert_eq!(program(&src), Err(syntax(0, Expected { end: true, ..ELEMENT })));
}

#[test]
fn many_siblings() {
    let src = "x ".repeat(200_000);
    let atoms = program(&src).unwrap();
    assert_eq!(atoms.len(), 200_000);
    assert_eq!(atoms[199_999], word("x", 399_998, 399_999));
}

#[test]
fn relexing_a_span_gives_the_same_kind() {
    let src = "(define (greet name) \"héllo\" name\t) \"x\" \"open";
    fn check(src: &str, atoms: &[Atom]) {
        for atom in atoms {
            let part = &src[atom.span.start()..atom.span.end()];
            match &atom.kind {
                AtomKind::Ident(_) => assert_eq!(ident(part).unwrap().kind, atom.kind),
                AtomKind::String(_) => assert_eq!(string(part).unwrap().kind, atom.kind),
                AtomKind::List(items, _) => check(src, items),
            }
        }
    }
    let atoms = program(src).unwrap();
    assert_eq!(atoms.len(), 3);
    check(src, &atoms);
}

#[test]
fn extra_whitespace_keeps_the_kinds() {
    let tight = "(f 'a ,@(b)\"s\"[c]{d})x";
    let loose = " ( f\t' a ,@ ( b ) \"s\"\n[ c ]\r\n{ d } ) x ";
    let a = program(tight).unwrap();
    let b = program(loose).unwrap();
    assert_ne!(a, b);
    assert_eq!(without_spans(a), without_spans(b));
}

#[test]
fn prefix_markers_inside_a_word_belong_to_it() {
    assert_eq!(
        program("'a,@(b)"),
        Ok(vec![
            Atom {
                prefix: Some(PrefixKind::Quote),
                kind: AtomKind::Ident("a,@".into()),
                span: at(0, 4)
            },
            list(vec![word("b", 5, 6)], BracketKind::Round, 4, 7),
        ])
    );
}

#[test]
fn whitespace_inside_a_token_changes_the_kinds() {
    let a = program("(ab \"cd\")").unwrap();
    let b = program("(a b \"c d\")").unwrap();
    assert_ne!(without_spans(a), without_spans(b));
}

#[test]
fn atom_new() {
    assert_eq!(
        Atom::new(Some(PrefixKind::Quote), AtomKind::Ident("a".into()), at(0, 2)),
        Atom {
            prefix: Some(PrefixKind::Quote),
            kind: AtomKind::Ident("a".into()),
            span: at(0, 2)
        }
    );
}

#[test]
fn deep_nesting_left_open() {
    let src = "(".repeat(1_000_000);
    assert_eq!(
        program(&src),
        Err(syntax(1_000_000, Expected { close: Some(BracketKind::Round), ..ELEMENT }))
    );
}

#[test]
fn deep_nesting() {
    let depth = 10_000;
    let src = format!("{}{}", "[".repeat(depth), "]".repeat(depth));
    let mut atoms = program(&src).unwrap();
    let mut level = 0;
    while let Some(atom) = atoms.pop() {
        assert!(atoms.is_empty());
        assert_eq!(atom.span, at(level, 2 * depth - level));
        match atom.kind {
            AtomKind::List(items, BracketKind::Square) => atoms = items,
            other => panic!("not a list: {:?}", other),
        }
        level += 1;
    }
    assert_eq!(level, depth);
}

#[test]
fn deep_nesting_past_the_span_limit() {
    let depth = 40_000;
    let src = format!("{}{}", "(".repeat(depth), ")".repeat(depth));
    assert_eq!(
        program(&src),
        Err(ParseError::SpanRange(SpanRangeError { start: 7232, end: 72768 }))
    );
}

#[test]
fn nesting_within_the_limit() {
    let src = "(a (b [c]) \"d\")";
    assert_eq!(program_within(src, 3), program(src));
    assert_eq!(program_within(src, 1000), program(src));
    assert!(program(src).is_ok());
    assert_eq!(program_within("a 'b \"c\"", 0), program("a 'b \"c\""));
}

#[test]
fn nesting_past_the_limit() {
    let leaf = Expected { list: false, ..ELEMENT };
    assert_eq!(program_within("(a (b [c]) \"d\")", 2), Err(syntax(6, leaf)));
    assert_eq!(program_within("(a (b [c]) \"d\")", 1), Err(syntax(3, leaf)));
    assert_eq!(program_within("x ()", 0), Err(syntax(2, leaf)));
    assert_eq!(
        program_within("x ' ()", 0),
        Err(syntax(4, Expected { prefix: false, ..leaf }))
    );
}

#[test]
fn nesting_limit_counts_open_lists_only() {
    let src = "() [] {} (()) (())";
    assert_eq!(program_within(src, 2), program(src));
    assert_eq!(
        program_within(src, 1),
        Err(syntax(10, Expected { list: false, ..ELEMENT }))
    );
}

#[test]
fn nesting_limit_stops_early() {
    let src = "(".repeat(1_000_000);
    assert_eq!(
        program_within(&src, 100),
        Err(syntax(100, Expected { list: false, ..ELEMENT }))
    );
}

#[test]
fn first_failure_wins_under_a_limit() {
    assert_eq!(
        program_within("(a ] ((", 1),
        Err(syntax(3, Expected { close: Some(BracketKind::Round), ..ELEMENT }))
    );
    assert_eq!(
        program_within("(( a ]", 1),
        Err(syntax(1, Expected { list: false, ..ELEMENT }))
    );
}

#[test]
fn deepest_nesting_that_spans_allow() {
    assert_eq!(MAX_NESTING, 32767);
    let src = format!("{}{}", "(".repeat(MAX_NESTING), ")".repeat(MAX_NESTING));
    let mut atoms = program(&src).unwrap();
    let mut level = 0;
    while let Some(atom) = atoms.pop() {
        match atom.kind {
            AtomKind::List(items, _) => atoms = items,
            other => panic!("not a list: {:?}", other),
        }
        level += 1;
    }
    assert_eq!(level, MAX_NESTING);
    let src = format!("{}{}", "(".repeat(MAX_NESTING + 1), ")".repeat(MAX_NESTING + 1));
    assert_eq!(
        program(&src),
        Err(ParseError::SpanRange(SpanRangeError { start: 0, end: 65536 }))
    );
}

#[test]
fn list_span_is_the_merge_of_its_delimiters() {
    let atoms = program("' ( a )  x").unwrap();
    assert_eq!(atoms.len(), 2);
    let list = &atoms[0];
    assert_eq!(list.prefix, Some(PrefixKind::Quote));
    assert_eq!(list.span, at(0, 9));
    let opening_side = at(0, 3);
    let closing_side = at(6, 9);
    assert_eq!(opening_side.merge(&closing_side), Ok(list.span));
    match &list.kind {
        AtomKind::List(items, BracketKind::Round) => {
            assert_eq!(items.len(), 1);
            assert_eq!(items[0], word("a", 4, 5));
            assert_eq!(list.span.merge(&items[0].span), Ok(list.span));
        }
        other => panic!("not a round list: {:?}", other),
    }
    assert_eq!(atoms[1], word("x", 9, 10));
}
