use tensorism_gen::error::{ErrorKind, ParseError};
use tensorism_gen::parsing::{
    declare_indexes, generate_compilation_error, note_indexes, parse, parse_group, parse_punct,
    parse_sequence, parse_tensor_indexing, reversed,
};
use tensorism_gen::simplify;
use tensorism_gen::text::{characters, simplify_text, white_space};
use tensorism_gen::token::{
    clone_idents, clone_range, clone_stream, Delimiter, Group, Ident, Literal, Punct, Spacing,
    Span, TokenTree,
};
use tensorism_gen::types::{EinsteinAlternative, EinsteinSequence, IndexUse};

fn parsing_convert(stream: proc_macro2::TokenStream, next: &mut usize) -> Vec<TokenTree> {
    let mut out = Vec::new();
    for tree in stream {
        let span = Span::At(*next);
        *next += 1;
        out.push(match tree {
            proc_macro2::TokenTree::Ident(ident) => TokenTree::Ident(Ident {
                name: ident.to_string(),
                span,
            }),
            proc_macro2::TokenTree::Punct(punct) => TokenTree::Punct(Punct {
                ch: punct.as_char(),
                spacing: match punct.spacing() {
                    proc_macro2::Spacing::Alone => Spacing::Alone,
                    proc_macro2::Spacing::Joint => Spacing::Joint,
                },
                span,
            }),
            proc_macro2::TokenTree::Literal(literal) => TokenTree::Literal(Literal {
                text: literal.to_string(),
                span,
            }),
            proc_macro2::TokenTree::Group(group) => TokenTree::Group(Group {
                delimiter: match group.delimiter() {
                    proc_macro2::Delimiter::Parenthesis => Delimiter::Parenthesis,
                    proc_macro2::Delimiter::Brace => Delimiter::Brace,
                    proc_macro2::Delimiter::Bracket => Delimiter::Bracket,
                    proc_macro2::Delimiter::None => Delimiter::Bare,
                },
                stream: parsing_convert(group.stream(), next),
                span,
            }),
        });
    }
    out
}

fn parsing_lex(source: &str) -> Vec<TokenTree> {
    let stream: proc_macro2::TokenStream = source.parse().unwrap();
    let mut next = 0;
    parsing_convert(stream, &mut next)
}

fn parsing_error(source: &str) -> ParseError {
    match parse(&parsing_lex(source)) {
        Ok(_) => panic!("read without fault"),
        Err(error) => error,
    }
}

fn uses(index_use: &IndexUse) -> Vec<(String, Vec<(String, usize)>)> {
    index_use
        .entries()
        .iter()
        .map(|entry| {
            (
                entry.index.name.clone(),
                entry
                    .uses
                    .iter()
                    .map(|p| (p.tensor_name.name.clone(), p.position))
                    .collect(),
            )
        })
        .collect()
}

fn named(name: &str, span: usize) -> Ident {
    Ident { name: name.to_string(), span: Span::At(span) }
}

#[test]
fn uses_are_noted_while_reading() {
    let (sequence, index_use) = parse(&parsing_lex("i j $ a[i, j] + b[j]")).unwrap();
    assert_eq!(
        uses(&index_use),
        vec![
            ("i".to_string(), vec![("a".to_string(), 0)]),
            (
                "j".to_string(),
                vec![("a".to_string(), 1), ("b".to_string(), 0)]
            ),
        ]
    );
    assert_eq!(sequence.span, Span::CallSite);
    assert!(!sequence.use_parens);
    assert_eq!(sequence.content.len(), 1);
    match &sequence.content[0] {
        EinsteinAlternative::Func(func) => {
            let inverted: Vec<&str> =
                func.inverted_indexes.iter().map(|i| i.name.as_str()).collect();
            assert_eq!(inverted, vec!["j", "i"]);
            assert_eq!(func.sequence.span, Span::At(2));
            assert!(!func.sequence.use_parens);
            assert_eq!(func.sequence.content.len(), 3);
            match &func.sequence.content[0] {
                EinsteinAlternative::TensorAccess { tensor_name, span, indexes } => {
                    assert_eq!(tensor_name.name, "a");
                    assert_eq!(*span, Span::At(4));
                    assert_eq!(indexes.len(), 2);
                }
                other => panic!("unexpected piece {:?}", other),
            }
        }
        other => panic!("unexpected piece {:?}", other),
    }
    let pairs = index_use.into_iter();
    assert_eq!(pairs.len(), 2);
    assert_eq!(pairs[0].0, "i");
    assert_eq!(pairs[1].1.len(), 2);
    assert_eq!(pairs[1].1[1].index_name.span, Span::At(11));
}

#[test]
fn tokens_before_the_indexes_stay_in_the_sequence() {
    let (sequence, _) = parse(&parsing_lex("1 + i j $ a[i, j]")).unwrap();
    assert_eq!(sequence.content.len(), 3);
    assert!(matches!(sequence.content[2], EinsteinAlternative::Func(_)));
}

#[test]
fn groups_in_parentheses_are_sequences_of_their_own() {
    let (sequence, _) = parse(&parsing_lex("f(x, (y))")).unwrap();
    assert_eq!(sequence.content.len(), 2);
    match &sequence.content[1] {
        EinsteinAlternative::Sequence(inner) => {
            assert!(inner.use_parens);
            assert_eq!(inner.span, Span::At(1));
            assert_eq!(inner.content.len(), 3);
        }
        other => panic!("unexpected piece {:?}", other),
    }
}

#[test]
fn semicolon_is_forbidden() {
    let error = parsing_error("i $ a[i]; b");
    assert_eq!(error.kind, ErrorKind::ForbiddenSemicolon);
    assert_eq!(error.span, Span::At(5));
    assert_eq!(error.message(), "Character ';' is forbidden");
}

#[test]
fn braces_are_forbidden() {
    let error = parsing_error("i $ { a[i] }");
    assert_eq!(error.kind, ErrorKind::ForbiddenBraces);
    assert_eq!(error.span, Span::At(2));
    assert_eq!(error.message(), "Characters '{' and '}' are forbidden");
}

#[test]
fn index_name_cannot_be_reused() {
    let error = parsing_error("i $ a[i] + (i $ b[i])");
    assert_eq!(error.kind, ErrorKind::ReusedIndex);
    assert_eq!(error.message(), "Illegal reused index name");
    let error = parsing_error("i i $ a[i]");
    assert_eq!(error.kind, ErrorKind::ReusedIndex);
    assert_eq!(error.span, Span::At(1));
}

#[test]
fn name_is_free_again_after_its_scope_has_closed() {
    let (sequence, index_use) = parse(&parsing_lex("sum(j $ b[j]) + sum(j $ c[j])")).unwrap();
    assert_eq!(
        uses(&index_use),
        vec![
            ("j".to_string(), vec![("b".to_string(), 0)]),
            ("j".to_string(), vec![("c".to_string(), 0)]),
        ]
    );
    assert!(index_use.entries().iter().all(|entry| !entry.open));
    assert_eq!(sequence.content.len(), 5);
    let ranks: Vec<Vec<usize>> = [1usize, 4]
        .iter()
        .map(|&at| match &sequence.content[at] {
            EinsteinAlternative::Sequence(inner) => match &inner.content[0] {
                EinsteinAlternative::Func(func) => func.inverted_ranks.clone(),
                other => panic!("unexpected piece {:?}", other),
            },
            other => panic!("unexpected piece {:?}", other),
        })
        .collect();
    assert_eq!(ranks, vec![vec![0], vec![1]]);
    let (_, index_use) = parse(&parsing_lex("f(for i => a[i]) + g(for i => b[i])")).unwrap();
    assert_eq!(index_use.len(), 2);
}

#[test]
fn index_is_unknown_after_its_scope_has_closed() {
    let error = parsing_error("sum(i $ a[i]) + b[i]");
    assert_eq!(error.kind, ErrorKind::UndeclaredIndex);
    assert_eq!(error.span, Span::At(10));
    let error = parsing_error("(i $ a[i]) + (j $ b[i, j])");
    assert_eq!(error.kind, ErrorKind::UndeclaredIndex);
    let (_, index_use) = parse(&parsing_lex("i $ a[i] + sum(j $ b[i, j])")).unwrap();
    assert_eq!(
        uses(&index_use),
        vec![
            (
                "i".to_string(),
                vec![("a".to_string(), 0), ("b".to_string(), 0)]
            ),
            ("j".to_string(), vec![("b".to_string(), 1)]),
        ]
    );
}

#[test]
fn index_list_holds_identifiers_and_commas() {
    let error = parsing_error("i $ a[i + 1]");
    assert_eq!(error.kind, ErrorKind::InvalidIndexContent);
    assert_eq!(error.span, Span::At(3));
    assert_eq!(error.message(), "Invalid content in indexes");
    let error = parsing_error("i $ a[0]");
    assert_eq!(error.kind, ErrorKind::InvalidIndexContent);
    let error = parsing_error("i $ a[(i)]");
    assert_eq!(error.kind, ErrorKind::InvalidIndexContent);
    let (_, index_use) = parse(&parsing_lex("i j $ a[i,, j,]")).unwrap();
    assert_eq!(
        uses(&index_use),
        vec![
            ("i".to_string(), vec![("a".to_string(), 0)]),
            ("j".to_string(), vec![("a".to_string(), 1)]),
        ]
    );
}

#[test]
fn index_has_to_be_declared() {
    let error = parsing_error("i $ a[i, j]");
    assert_eq!(error.kind, ErrorKind::UndeclaredIndex);
    assert_eq!(error.span, Span::At(6));
    assert_eq!(error.message(), "Undeclared index");
    let error = parsing_error("a[i]");
    assert_eq!(error.kind, ErrorKind::UndeclaredIndex);
}

#[test]
fn index_list_needs_the_name_of_an_array() {
    let error = parsing_error("i $ [i]");
    assert_eq!(error.kind, ErrorKind::MissingTensorName);
    assert_eq!(error.span, Span::At(2));
    assert_eq!(
        error.message(),
        "Invalid tensor name: an identifier was expected"
    );
    let error = parsing_error("i $ 3[i]");
    assert_eq!(error.kind, ErrorKind::MissingTensorName);
    let error = parsing_error("i $ f(x)[i]");
    assert_eq!(error.kind, ErrorKind::MissingTensorName);
}

#[test]
fn index_has_to_be_used() {
    let error = parsing_error("i j $ a[i]");
    assert_eq!(error.kind, ErrorKind::UnusedIndex);
    assert_eq!(error.subject, "j");
    assert_eq!(error.span, Span::At(1));
    assert_eq!(
        error.message(),
        "Index 'j' is never used to access an array"
    );
    let error = parsing_error("i $ 3");
    assert_eq!(error.kind, ErrorKind::UnusedIndex);
}

#[test]
fn first_fault_is_the_one_reported() {
    let error = parsing_error("i $ a[j] ; { }");
    assert_eq!(error.kind, ErrorKind::UndeclaredIndex);
    let error = parsing_error("{ } ; a[j]");
    assert_eq!(error.kind, ErrorKind::ForbiddenBraces);
}

#[test]
fn index_table_by_hand() {
    let mut index_use = IndexUse::new();
    assert!(index_use.declare_new(named("i", 0)));
    assert!(index_use.declare_new(named("j", 1)));
    assert!(!index_use.declare_new(named("i", 2)));
    assert!(index_use.push(named("j", 3), named("a", 4), 1));
    assert!(!index_use.push(named("k", 5), named("a", 6), 2));
    assert_eq!(index_use.first_unused().unwrap().name, "i");
    assert!(index_use.push(named("i", 7), named("a", 8), 0));
    assert!(index_use.push(named("j", 9), named("b", 10), 0));
    assert!(index_use.first_unused().is_none());
    assert_eq!(
        uses(&index_use),
        vec![
            ("i".to_string(), vec![("a".to_string(), 0)]),
            (
                "j".to_string(),
                vec![("a".to_string(), 1), ("b".to_string(), 0)]
            ),
        ]
    );
    assert_eq!(index_use.len(), 2);
    index_use.close_from(1);
    assert!(!index_use.push(named("j", 11), named("c", 12), 0));
    assert!(index_use.push(named("i", 13), named("c", 14), 1));
    assert_eq!(index_use.rank_of(&named("j", 15)), 1);
    assert!(!index_use.declare_new(named("i", 16)));
    assert!(index_use.declare_new(named("j", 17)));
    assert!(index_use.push(named("j", 18), named("d", 19), 3));
    index_use.close_from(0);
    assert!(index_use.entries().iter().all(|entry| !entry.open));
    assert!(!index_use.push(named("i", 20), named("e", 21), 0));
    let pairs = index_use.into_iter();
    assert_eq!(pairs.len(), 3);
    assert_eq!(pairs[0].1.len(), 2);
    assert_eq!(pairs[1].0, "j");
    assert_eq!(pairs[1].1[0].index_name.span, Span::At(3));
    assert_eq!(pairs[1].1[1].tensor_name.span, Span::At(10));
    assert_eq!(pairs[2].0, "j");
    assert_eq!(pairs[2].1[0].tensor_name.name, "d");
}

#[test]
fn trailing_identifiers_are_taken_last_first() {
    let mut sequence = EinsteinSequence::naked(Span::At(7));
    for token in parsing_lex("x + i j k") {
        sequence.push_token(token);
    }
    let inverted = sequence.extract_previous_identifiers();
    let names: Vec<&str> = inverted.iter().map(|i| i.name.as_str()).collect();
    assert_eq!(names, vec!["k", "j", "i"]);
    assert_eq!(sequence.content.len(), 2);
    assert_eq!(sequence.span, Span::At(7));
    let again = sequence.extract_previous_identifiers();
    assert!(again.is_empty());
    assert_eq!(sequence.content.len(), 2);
    let direct = reversed(&inverted);
    let names: Vec<&str> = direct.iter().map(|i| i.name.as_str()).collect();
    assert_eq!(names, vec!["i", "j", "k"]);
    assert!(reversed(&Vec::new()).is_empty());
}

#[test]
fn empty_sequences() {
    let initial = EinsteinSequence::initial();
    assert_eq!(initial.span, Span::CallSite);
    assert!(!initial.use_parens);
    assert!(initial.content.is_empty());
    let with_parens = EinsteinSequence::with_parens(Span::At(3));
    assert_eq!(with_parens.span, Span::At(3));
    assert!(with_parens.use_parens);
    let naked = EinsteinSequence::naked(Span::At(4));
    assert!(!naked.use_parens);
    assert!(naked.content.is_empty());
}

#[test]
fn parts_of_the_parser() {
    let tokens = parsing_lex("a [i, j] ; (x)");
    let mut sequence = EinsteinSequence::initial();
    let mut index_use = IndexUse::new();
    declare_indexes(vec![named("i", 20), named("j", 21)], &mut index_use).unwrap();
    assert_eq!(
        declare_indexes(vec![named("k", 22), named("i", 23)], &mut index_use)
            .unwrap_err()
            .span,
        Span::At(23)
    );
    sequence.push_token(tokens[0].clone());
    let group = match &tokens[1] {
        TokenTree::Group(group) => group,
        other => panic!("unexpected token {:?}", other),
    };
    let indexes = parse_tensor_indexing(group).unwrap();
    assert_eq!(indexes.len(), 2);
    parse_group(group, &mut sequence, &mut index_use).unwrap();
    assert_eq!(sequence.content.len(), 1);
    assert!(matches!(
        sequence.content[0],
        EinsteinAlternative::TensorAccess { .. }
    ));
    let semicolon = match &tokens[2] {
        TokenTree::Punct(punct) => *punct,
        other => panic!("unexpected token {:?}", other),
    };
    let error = parse_punct(semicolon, &tokens, 3, &mut sequence, &mut index_use).unwrap_err();
    assert_eq!(error.kind, ErrorKind::ForbiddenSemicolon);
    let plus = Punct::new('+', Spacing::Alone, Span::At(30));
    assert_eq!(plus.as_char(), '+');
    assert_eq!(
        parse_punct(plus, &tokens, 3, &mut sequence, &mut index_use).unwrap(),
        3
    );
    assert_eq!(sequence.content.len(), 2);
    parse_sequence(&tokens, 3, &mut sequence, &mut index_use).unwrap();
    assert_eq!(sequence.content.len(), 3);
    let error = note_indexes(&vec![named("i", 40), named("z", 41)], &named("t", 42), &mut index_use)
        .unwrap_err();
    assert_eq!(error.kind, ErrorKind::UndeclaredIndex);
    assert_eq!(error.span, Span::At(41));
    let error = generate_compilation_error(Span::At(5), ErrorKind::ForbiddenBraces).unwrap_err();
    assert_eq!(error.span, Span::At(5));
    assert_eq!(error.subject, "");
}

#[test]
fn copies_of_tokens_are_equal_to_them() {
    let tokens = parsing_lex("f(a[i], 'x') + 2.5");
    assert_eq!(clone_stream(&tokens), tokens);
    let middle: Vec<TokenTree> = tokens[1..3].iter().map(|token| token.clone()).collect();
    assert_eq!(clone_range(&tokens, 1, 3), middle);
    assert!(clone_range(&tokens, 2, 2).is_empty());
    let idents = vec![named("i", 0), named("j", 1)];
    assert_eq!(clone_idents(&idents), idents);
    assert_eq!(tokens[1].span(), Span::At(1));
    assert_eq!(tokens[1].to_string(), "(a [i] , 'x')");
    assert!(named("i", 0).same_name(&named("i", 9)));
    assert!(!named("i", 0).same_name(&named("j", 0)));
    assert!(named("plain", 0).is("plain"));
    assert_eq!(Ident::new("n", Span::CallSite).name, "n");
    assert_eq!(Literal::new("1.5", Span::At(2)).text, "1.5");
    let group = Group::new(Delimiter::Bracket, Vec::new(), Span::At(3));
    assert_eq!(TokenTree::Group(group).to_string(), "[]");
}

#[test]
fn text_on_one_line() {
    assert_eq!(simplify("{\n    let x = 1 ;\n    x\n}"), "{ let x = 1 ; x } ");
    assert_eq!(simplify(""), " ");
    assert_eq!(simplify("a"), "a ");
    assert_eq!(simplify("  a  b \t"), "a  b ");
    assert_eq!(simplify("a\n"), "a  ");
    assert_eq!(simplify("\n\n"), "   ");
    assert_eq!(simplify(" \u{a0}x\u{3000}\r\ny\u{2003}"), "x y ");
    assert_eq!(simplify("   \n x"), " x ");
    assert_eq!(simplify_text("p\nq"), "p q ");
}

#[test]
fn text_on_one_line_agrees_with_trim() {
    for text in [
        "a b",
        " lead",
        "trail ",
        "\ttabs\t\n  two  \n",
        "\u{85}next line\u{85}",
        "\u{1680}ogham\u{1680}\n\u{2028}sep\u{2029}",
        "\u{200b}zero width\u{200b}",
        "\u{202f}narrow\u{205f}",
        "x\u{b}\u{c}",
    ] {
        let mut expected = String::new();
        for line in text.split('\n') {
            expected.push_str(line.trim());
            expected.push(' ');
        }
        assert_eq!(simplify(text), expected);
    }
}

#[test]
fn white_space_is_what_the_standard_library_calls_so() {
    for code in 0u32..0x3100 {
        if let Some(c) = char::from_u32(code) {
            assert_eq!(white_space(c), c.is_whitespace(), "at {:x}", code);
        }
    }
    assert!(!white_space('\u{feff}'));
    assert_eq!(characters("aé\u{1f600}z"), vec!['a', 'é', '\u{1f600}', 'z']);
    assert!(characters("").is_empty());
}
