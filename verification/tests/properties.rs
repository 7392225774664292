use bozon_parser::{
    ident, prefix, program, program_within, string, Atom, AtomKind, ParseError, Span,
};

fn string_span_covers_quotes(input: String) -> bool {
    if let Ok(Atom { prefix: _, kind: AtomKind::String(s), span }) = string(&input) {
        span.len() == s.len() + 2
    } else {
        true
    }
}

fn prefix_accepts_every_marker(input: String) -> bool {
    let marked = input.starts_with('\'')
        || input.starts_with('`')
        || input.starts_with(',')
        || input.starts_with(",@");
    marked == prefix(&input).is_ok()
}

fn ident_span_covers_text(input: String) -> bool {
    match ident(&input) {
        Ok(Atom { prefix: None, kind: AtomKind::Ident(s), span }) => {
            span.start() == 0 && span.len() == s.len() && input.starts_with(&s)
        }
        Ok(_) => false,
        Err(ParseError::Syntax(e)) => e.offset == 0,
        Err(ParseError::SpanRange(_)) => false,
    }
}

fn spans_stay_inside(atoms: &[Atom], from: usize, to: usize) -> bool {
    let mut at = from;
    for atom in atoms {
        if atom.span.start() < at || atom.span.end() > to {
            return false;
        }
        if let AtomKind::List(items, _) = &atom.kind {
            if !spans_stay_inside(items, atom.span.start(), atom.span.end()) {
                return false;
            }
        }
        at = atom.span.end();
    }
    true
}

fn program_is_total_and_pure(input: String) -> bool {
    let first = program(&input);
    let second = program(&input);
    first == second
        && match first {
            Ok(atoms) => spans_stay_inside(&atoms, 0, input.len()),
            Err(ParseError::Syntax(e)) => e.offset <= input.len(),
            Err(ParseError::SpanRange(e)) => e.end - e.start > 65535,
        }
}

fn bracketed_input_reads_as_one_list(input: String) -> bool {
    let inner: String = input
        .chars()
        .filter(|c| !"()[]{}\"'`,".contains(*c))
        .collect();
    let src = format!("({})", inner);
    match program(&src) {
        Ok(atoms) => {
            atoms.len() == 1
                && atoms[0].span.start() == 0
                && atoms[0].span.end() == src.len()
                && matches!(atoms[0].kind, AtomKind::List(..))
        }
        Err(ParseError::SpanRange(_)) => src.len() > 65535,
        Err(ParseError::Syntax(_)) => false,
    }
}

fn generous_limit_changes_nothing(input: String) -> bool {
    program_within(&input, input.len()) == program(&input)
}

fn no_list_passes_a_limit_of_zero(input: String) -> bool {
    match program_within(&input, 0) {
        Ok(atoms) => atoms.iter().all(|atom| !matches!(atom.kind, AtomKind::List(..))),
        Err(_) => true,
    }
}

fn without_spans(atoms: Vec<Atom>) -> Vec<Atom> {
    atoms
        .into_iter()
        .map(|atom| Atom {
            prefix: atom.prefix,
            kind: match atom.kind {
                AtomKind::List(items, bracket) => AtomKind::List(without_spans(items), bracket),
                other => other,
            },
            span: Span::new(0, 0).unwrap(),
        })
        .collect()
}

/// Words of `input`, cut at whitespace and freed of what is not a plain
/// identifier byte.
fn words(input: &str) -> Vec<String> {
    input
        .split_whitespace()
        .map(|word| word.chars().filter(|c| !"()[]{}\"'`,".contains(*c)).collect::<String>())
        .filter(|word: &String| !word.is_empty() && !word.chars().any(char::is_whitespace))
        .collect()
}

fn padding_keeps_the_kinds(input: String) -> bool {
    let mut tight = String::from("(");
    let mut loose = String::from(" \t(\n");
    for (i, word) in words(&input).iter().enumerate() {
        let (open, close) = [("", ""), ("[", "]"), ("'", ""), ("\"", "\""), (",@{", "}")][i % 5];
        if i > 0 {
            tight.push(' ');
        }
        tight.push_str(open);
        tight.push_str(word);
        tight.push_str(close);
        loose.push_str(" \r ");
        if open.starts_with('"') {
            loose.push_str(open);
            loose.push_str(word);
            loose.push_str(close);
        } else {
            for c in open.chars().filter(|c| *c != '@') {
                loose.push(c);
                if c == ',' {
                    loose.push('@');
                }
                loose.push(' ');
            }
            loose.push_str(word);
            loose.push('\t');
            loose.push_str(close);
        }
        loose.push('\n');
    }
    tight.push(')');
    loose.push_str(" ) ");
    match (program(&tight), program(&loose)) {
        (Ok(a), Ok(b)) => a.len() == 1 && without_spans(a) == without_spans(b),
        _ => false,
    }
}

#[test]
fn limit_property() {
    quickcheck::quickcheck(generous_limit_changes_nothing as fn(String) -> bool);
    quickcheck::quickcheck(no_list_passes_a_limit_of_zero as fn(String) -> bool);
    assert!(generous_limit_changes_nothing("((a) [b {c}])".to_string()));
}

#[test]
fn padding_property() {
    quickcheck::quickcheck(padding_keeps_the_kinds as fn(String) -> bool);
    assert!(padding_keeps_the_kinds("a b c d e f g h i j k".to_string()));
    assert!(padding_keeps_the_kinds(String::new()));
}

#[test]
fn string_property() {
    quickcheck::quickcheck(string_span_covers_quotes as fn(String) -> bool);
    assert!(string_span_covers_quotes("\"héllo\" tail".to_string()));
}

#[test]
fn prefix_property() {
    quickcheck::quickcheck(prefix_accepts_every_marker as fn(String) -> bool);
    assert!(prefix_accepts_every_marker(",@".to_string()));
}

#[test]
fn ident_property() {
    quickcheck::quickcheck(ident_span_covers_text as fn(String) -> bool);
}

#[test]
fn program_property() {
    quickcheck::quickcheck(program_is_total_and_pure as fn(String) -> bool);
}

#[test]
fn bracketed_property() {
    quickcheck::quickcheck(bracketed_input_reads_as_one_list as fn(String) -> bool);
}
