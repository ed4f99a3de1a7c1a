use tensorism_gen::error::{ErrorKind, ParseError};
use tensorism_gen::model::header::{
    reserved_word, HostAnswers, RicciAliasDeclaration, RicciIndexDeclaration, RicciIndexer,
};
use tensorism_gen::model::lambda::{illegal_keyword, RicciGroup, RicciLambda, RicciSegment};
use tensorism_gen::text::stream_to_string;
use tensorism_gen::token::{Delimiter, Group, Ident, Literal, Punct, Spacing, Span, TokenTree};

fn model_convert(stream: proc_macro2::TokenStream, next: &mut usize) -> Vec<TokenTree> {
    let mut out = Vec::new();
    for tree in stream {
        let span = Span::At(*next);
        *next += 1;
        out.push(match tree {
            proc_macro2::TokenTree::Ident(ident) => TokenTree::Ident(Ident {
                name: ident.to_string(),
                span,
            }),
            proc_macro2::TokenTree::Punct(punct) => TokenTree::Punct(Punct {
                ch: punct.as_char(),
                spacing: match punct.spacing() {
                    proc_macro2::Spacing::Alone => Spacing::Alone,
                    proc_macro2::Spacing::Joint => Spacing::Joint,
                },
                span,
            }),
            proc_macro2::TokenTree::Literal(literal) => TokenTree::Literal(Literal {
                text: literal.to_string(),
                span,
            }),
            proc_macro2::TokenTree::Group(group) => TokenTree::Group(Group {
                delimiter: match group.delimiter() {
                    proc_macro2::Delimiter::Parenthesis => Delimiter::Parenthesis,
                    proc_macro2::Delimiter::Brace => Delimiter::Brace,
                    proc_macro2::Delimiter::Bracket => Delimiter::Bracket,
                    proc_macro2::Delimiter::None => Delimiter::Bare,
                },
                stream: model_convert(group.stream(), next),
                span,
            }),
        });
    }
    out
}

fn model_lex(source: &str) -> Vec<TokenTree> {
    let stream: proc_macro2::TokenStream = source.parse().unwrap();
    let mut next = 0;
    model_convert(stream, &mut next)
}

fn model_failure(kind: &str, error: ParseError) -> String {
    format!("Failed to parse type `{}`: {}", kind, error.message())
}

fn display_index_declaration(source: &str) -> String {
    match RicciIndexDeclaration::from_tokens(&model_lex(source)) {
        Ok(item) => item.to_string(),
        Err(error) => model_failure("tensorism_gen::model::header::RicciIndexDeclaration", error),
    }
}

fn display_alias_declaration(source: &str) -> String {
    match RicciAliasDeclaration::from_tokens(&model_lex(source)) {
        Ok(item) => item.to_string(),
        Err(error) => model_failure("tensorism_gen::model::header::RicciAliasDeclaration", error),
    }
}

fn display_lambda(source: &str) -> String {
    match RicciLambda::from_tokens(&model_lex(source)) {
        Ok(item) => item.to_string(),
        Err(error) => model_failure("tensorism_gen::model::lambda::RicciLambda", error),
    }
}

fn display_group(source: &str) -> String {
    match RicciGroup::from_tokens(&model_lex(source)) {
        Ok(item) => item.to_string(),
        Err(error) => model_failure("tensorism_gen::model::lambda::RicciGroup", error),
    }
}

fn lambda_error(source: &str) -> ParseError {
    match RicciLambda::from_tokens(&model_lex(source)) {
        Ok(item) => panic!("read as {}", item.to_string()),
        Err(error) => error,
    }
}

#[test]
fn parse_header() {
    assert_eq!(display_index_declaration("for i j"), "∀ i j");

    assert_eq!(
        display_alias_declaration("let i = plain: 4 + g()"),
        "∙ i ≔ « 4 + g () »"
    );

    assert_eq!(
        display_alias_declaration("let i = rev: long_index_name"),
        "∙ i ≔ ↺ long_index_name"
    );

    assert_eq!(
        display_alias_declaration("let i = f[a, b, c]"),
        "∙ i ≔ f ⦇ a , b , c ⦈"
    );
}

#[test]
fn parse_lambda() {
    assert_eq!(display_lambda("for i => a[i] + 3"), "∀ i ▸ a ⟦ i ⟧ + 3");

    assert_eq!(
        display_lambda("for i j let k = sort[j] => a[i, j] + 4 * b[k]"),
        "∀ i j ∙ k ≔ sort ⦇ j ⦈ ▸ a ⟦ i , j ⟧ + 4 * b ⟦ k ⟧"
    );
}

#[test]
fn parse_complex() {
    assert_eq!(
        display_lambda("for i => a[i] + sum(for j => b[i, j])"),
        "∀ i ▸ a ⟦ i ⟧ + sum (∀ j ▸ b ⟦ i , j ⟧)"
    );

    assert_eq!(
        display_lambda("for i => a[i] + sum(for j => b[every3[i], j])"),
        "∀ i ▸ a ⟦ i ⟧ + sum (∀ j ▸ b ⟦ every3 ⦇ i ⦈ , j ⟧)"
    );

    assert_eq!(
        display_group("3.5 * median(for i => a[i] + sum(for j => b[every3[i], j]))"),
        " 3.5 * median (∀ i ▸ a ⟦ i ⟧ + sum (∀ j ▸ b ⟦ every3 ⦇ i ⦈ , j ⟧))"
    );

    assert_eq!(
        display_group(
            "3.5 * median(for i => a[i] + sum(for j => if i < j { b[every3[i], j] } else { c[j] + 4.0 }))"
        ),
        " 3.5 * median (∀ i ▸ a ⟦ i ⟧ + sum (∀ j ▸ if i < j { b ⟦ every3 ⦇ i ⦈ , j ⟧} else { c ⟦ j ⟧ + 4.0}))"
    );
}

#[test]
fn parse_invalid() {
    assert_eq!(
        display_lambda("for i => { let name = a[i]; name }"),
        "Failed to parse type `tensorism_gen::model::lambda::RicciLambda`: Keyword let is illegal."
    );

    assert_eq!(
        display_lambda("for i => { while ok { a[i] } }"),
        "Failed to parse type `tensorism_gen::model::lambda::RicciLambda`: Keyword while is illegal."
    );
}

#[test]
fn forbidden_keyword_is_reported_where_it_stands() {
    let error = lambda_error("for i => { while x { a[i] } }");
    assert_eq!(error.kind, ErrorKind::IllegalKeyword);
    assert_eq!(error.subject, "while");
    assert_eq!(error.span, Span::At(5));
    assert!(!error.at_end);
    assert_eq!(error.message(), "Keyword while is illegal.");
}

#[test]
fn every_illegal_keyword_is_refused() {
    for word in [
        "let", "while", "loop", "break", "continue", "return", "fn", "struct", "enum", "type",
        "trait", "mod", "use", "extern",
    ] {
        assert!(illegal_keyword(&word.to_string()));
        let error = lambda_error(&format!("for i => a[i] + {} b", word));
        assert_eq!(error.kind, ErrorKind::IllegalKeyword);
        assert_eq!(error.subject, word);
    }
    for word in ["if", "else", "match", "as", "unsafe", "lets", "i"] {
        assert!(!illegal_keyword(&word.to_string()));
    }
}

#[test]
fn reserved_words_name_no_index() {
    for word in ["_", "for", "let", "self", "Self", "yield", "typeof", "as", "in"] {
        assert!(reserved_word(&word.to_string()));
    }
    for word in ["i", "plain", "rev", "forty", "union", "raw"] {
        assert!(!reserved_word(&word.to_string()));
    }
    let error = lambda_error("for in => a[i]");
    assert_eq!(error.kind, ErrorKind::ExpectedIdentifier);
    assert_eq!(error.subject, "in");
    assert_eq!(
        error.message(),
        "expected identifier, found keyword `in`"
    );
}

#[test]
fn header_stops_at_the_first_word_that_is_no_identifier() {
    let tokens = model_lex("for i j k => x");
    let (declaration, next) = RicciIndexDeclaration::parse(&tokens, 0, Span::CallSite).unwrap();
    assert_eq!(next, 4);
    let names: Vec<&str> = declaration.indexes.iter().map(|i| i.name.as_str()).collect();
    assert_eq!(names, vec!["i", "j", "k"]);
    assert_eq!(declaration.indexes[2].span, Span::At(3));
}

#[test]
fn header_needs_for_and_one_index() {
    let error = RicciIndexDeclaration::from_tokens(&model_lex("i j")).unwrap_err();
    assert_eq!(error.kind, ErrorKind::ExpectedFor);
    assert_eq!(error.span, Span::At(0));
    assert_eq!(error.message(), "expected `for`");

    let error = RicciIndexDeclaration::from_tokens(&model_lex("for")).unwrap_err();
    assert_eq!(error.kind, ErrorKind::ExpectedIdentifier);
    assert_eq!(error.span, Span::CallSite);
    assert!(error.at_end);
    assert_eq!(error.message(), "unexpected end of input, expected identifier");

    let error = RicciIndexDeclaration::from_tokens(&model_lex("")).unwrap_err();
    assert_eq!(error.kind, ErrorKind::ExpectedFor);
    assert!(error.at_end);

    let error = RicciIndexDeclaration::from_tokens(&model_lex("for i +")).unwrap_err();
    assert_eq!(error.kind, ErrorKind::UnexpectedToken);
    assert_eq!(error.span, Span::At(2));
    assert_eq!(error.message(), "unexpected token");
}

#[test]
fn scope_needs_an_arrow() {
    let error = lambda_error("for i a[i]");
    assert_eq!(error.kind, ErrorKind::ExpectedArrow);
    assert_eq!(error.message(), "expected `=>`");

    let error = lambda_error("for i = > a[i]");
    assert_eq!(error.kind, ErrorKind::ExpectedArrow);
    assert_eq!(error.span, Span::At(2));

    let error = lambda_error("for i j");
    assert_eq!(error.kind, ErrorKind::ExpectedArrow);
    assert!(error.at_end);
    assert_eq!(error.message(), "unexpected end of input, expected `=>`");
}

#[test]
fn alias_needs_let_name_and_equals() {
    let error = RicciAliasDeclaration::from_tokens(&model_lex("k = f[j]")).unwrap_err();
    assert_eq!(error.kind, ErrorKind::ExpectedLet);
    assert_eq!(error.message(), "expected `let`");

    let error = RicciAliasDeclaration::from_tokens(&model_lex("let 3 = f[j]")).unwrap_err();
    assert_eq!(error.kind, ErrorKind::ExpectedIdentifier);
    assert_eq!(error.message(), "expected identifier");

    let error = RicciAliasDeclaration::from_tokens(&model_lex("let k f[j]")).unwrap_err();
    assert_eq!(error.kind, ErrorKind::ExpectedEquals);
    assert_eq!(error.span, Span::At(2));
    assert_eq!(error.message(), "expected `=`");
}

#[test]
fn unknown_reindexing_keyword_is_refused() {
    let error = lambda_error("for i => a[twice: i]");
    assert_eq!(error.kind, ErrorKind::UnknownReindexingKeyword);
    assert_eq!(error.subject, "twice");
    assert_eq!(error.message(), "Unknown reindexing keyword: twice");
}

#[test]
fn indexer_starts_with_an_identifier() {
    let error = lambda_error("for i => a[3]");
    assert_eq!(error.kind, ErrorKind::ExpectedReindexingIdentifier);
    assert_eq!(error.message(), "Expected an identifier for reindexing");
    assert!(!error.at_end);

    let error = lambda_error("for i => a[i, ]");
    assert_eq!(error.kind, ErrorKind::ExpectedReindexingIdentifier);

    let error = lambda_error("for i => a[i j]");
    assert_eq!(error.kind, ErrorKind::ExpectedComma);
    assert_eq!(error.message(), "expected `,`");
}

#[test]
fn empty_index_list_is_an_access_without_indexers() {
    let group = RicciGroup::from_tokens(&model_lex("a[]")).unwrap();
    assert_eq!(group.segments.len(), 1);
    match &group.segments[0] {
        RicciSegment::TensorCall { tensor_name, indexers } => {
            assert_eq!(tensor_name.name, "a");
            assert!(indexers.is_empty());
        }
        other => panic!("unexpected segment {:?}", other),
    }
    assert_eq!(group.to_string(), " a ⟦ ⟧");
}

#[test]
fn plain_indexer_takes_one_host_expression() {
    let group = RicciGroup::from_tokens(&model_lex("a[plain: 4 + g(x, y), j]")).unwrap();
    match &group.segments[0] {
        RicciSegment::TensorCall { indexers, .. } => {
            assert_eq!(indexers.len(), 2);
            match &indexers[0] {
                RicciIndexer::Plain { expr } => {
                    assert_eq!(expr.len(), 4);
                    assert_eq!(stream_to_string(expr), "4 + g (x , y)");
                }
                other => panic!("unexpected indexer {:?}", other),
            }
            match &indexers[1] {
                RicciIndexer::Direct { index } => assert_eq!(index.name, "j"),
                other => panic!("unexpected indexer {:?}", other),
            }
        }
        other => panic!("unexpected segment {:?}", other),
    }
    assert_eq!(group.to_string(), " a ⟦ « 4 + g (x , y) » , j ⟧");
}

#[test]
fn plain_indexer_stops_where_the_host_expression_stops() {
    let lambda = RicciLambda::from_tokens(&model_lex("for i let k = plain: n - 1 => a[i, k]"))
        .unwrap();
    assert_eq!(lambda.alias_declarations.len(), 1);
    assert_eq!(
        lambda.to_string(),
        "∀ i ∙ k ≔ « n - 1 » ▸ a ⟦ i , k ⟧"
    );

    let error = lambda_error("for i => a[plain: n m]");
    assert_eq!(error.kind, ErrorKind::ExpectedComma);

    let error = lambda_error("for i => a[plain: ]");
    assert_eq!(error.kind, ErrorKind::ExpectedExpression);
    assert!(error.at_end);

    let error = lambda_error("for i => a[plain: , i]");
    assert_eq!(error.kind, ErrorKind::ExpectedExpression);
    assert!(!error.at_end);
}

#[test]
fn plain_indexer_from_a_given_rest() {
    let tokens = model_lex("n + 1 , j");
    let (indexer, next) = RicciIndexer::plain(&tokens, 0, Span::CallSite, Some(2)).unwrap();
    assert_eq!(next, 3);
    match indexer {
        RicciIndexer::Plain { expr } => assert_eq!(stream_to_string(&expr), "n + 1"),
        other => panic!("unexpected indexer {:?}", other),
    }
    let (_, next) = RicciIndexer::plain(&tokens, 2, Span::CallSite, Some(0)).unwrap();
    assert_eq!(next, 5);
    for rest in [Some(5), Some(6), None] {
        let error = RicciIndexer::plain(&tokens, 0, Span::CallSite, rest).unwrap_err();
        assert_eq!(error.kind, ErrorKind::ExpectedExpression);
        assert_eq!(error.span, Span::At(0));
    }
    let error = RicciIndexer::plain(&tokens, 5, Span::At(9), Some(0)).unwrap_err();
    assert_eq!(error.span, Span::At(9));
    assert!(error.at_end);
}

#[test]
fn reverse_indexer_is_read_and_written() {
    assert_eq!(
        display_lambda("for i => a[rev: i] + b[i]"),
        "∀ i ▸ a ⟦ ↺ i ⟧ + b ⟦ i ⟧"
    );
    let error = lambda_error("for i => a[rev: 2]");
    assert_eq!(error.kind, ErrorKind::ExpectedIdentifier);
}

#[test]
fn groups_keep_their_delimiters() {
    assert_eq!(
        display_group("f(a[i]) + [x, y] + { z }"),
        " f ( a ⟦ i ⟧) + [ x , y] + { z}"
    );
}

#[test]
fn scope_runs_to_the_end_of_its_group() {
    let group = RicciGroup::from_tokens(&model_lex("x + (for i => a[i] + 1) + y")).unwrap();
    assert_eq!(group.segments.len(), 5);
    match &group.segments[2] {
        RicciSegment::SubGroup { delimiter, group } => {
            assert_eq!(*delimiter, Delimiter::Parenthesis);
            assert_eq!(group.segments.len(), 1);
            match &group.segments[0] {
                RicciSegment::SubLambda(lambda) => assert_eq!(lambda.body.segments.len(), 3),
                other => panic!("unexpected segment {:?}", other),
            }
        }
        other => panic!("unexpected segment {:?}", other),
    }
}

#[test]
fn rendering_is_the_same_on_every_run() {
    let source = "3.5 * median(for i j let k = rev: j => a[i, plain: n + 1] - b[f[i, j], k])";
    let first = display_group(source);
    let second = display_group(source);
    assert_eq!(first, second);
    assert_eq!(
        first,
        " 3.5 * median (∀ i j ∙ k ≔ ↺ j ▸ a ⟦ i , « n + 1 » ⟧ - b ⟦ f ⦇ i , j ⦈ , k ⟧)"
    );
}

#[test]
fn tokens_are_written_as_the_lexer_writes_them() {
    for source in [
        "a + b",
        "f(x, y)[0] . z",
        "x => y :: z && w",
        "if a < b { c } else { }",
        "a.b(c, |d| e + 1.5)",
        "() [] {}",
        "'a' \"text\" 12u8 'life",
    ] {
        let stream: proc_macro2::TokenStream = source.parse().unwrap();
        assert_eq!(stream_to_string(&model_lex(source)), stream.to_string());
    }
}

#[test]
fn segment_needs_a_token() {
    let tokens = model_lex("a + b");
    let mut asked = HostAnswers::new();
    let error = RicciSegment::parse(&tokens, 3, Span::At(7), &mut asked).unwrap_err();
    assert_eq!(error.kind, ErrorKind::ExpectedToken);
    assert_eq!(error.span, Span::At(7));
    assert!(error.at_end);
    assert_eq!(error.message(), "unexpected end of input, expected token tree");
    let (segment, next) = RicciSegment::parse(&tokens, 1, Span::At(7), &mut asked).unwrap();
    assert_eq!(next, 2);
    assert_eq!(segment.to_string(), " +");
}

#[test]
fn messages_name_what_is_missing() {
    let error = lambda_error("for i => a[plain: ]");
    assert_eq!(error.message(), "unexpected end of input, expected an expression");
    let plain = ParseError::new(ErrorKind::ExpectedComma, Span::At(1));
    assert_eq!(plain.subject, "");
    assert!(!plain.at_end);
    let named = ParseError::about(ErrorKind::UnknownIndex, Span::At(2), &"k".to_string());
    assert_eq!(named.subject, "k");
    assert_eq!(named.span, Span::At(2));
}

#[test]
fn semicolon_is_refused_in_an_expression() {
    let error = RicciGroup::from_tokens(&model_lex("a ; b")).unwrap_err();
    assert_eq!(error.kind, ErrorKind::ForbiddenSemicolon);
    assert_eq!(error.span, Span::At(1));
    assert_eq!(error.message(), "Character ';' is forbidden");
    let error = lambda_error("for i => a[i] ; b[i]");
    assert_eq!(error.kind, ErrorKind::ForbiddenSemicolon);
    let error = lambda_error("for i => f(a[i] ;)");
    assert_eq!(error.kind, ErrorKind::ForbiddenSemicolon);
    let error = lambda_error("for i => { let name = a[i]; name }");
    assert_eq!(error.kind, ErrorKind::IllegalKeyword);
}

#[test]
fn host_parser_is_asked_once_about_a_text() {
    let mut asked = HostAnswers::new();
    assert!(asked.ask("n + 1".to_string()));
    assert!(asked.ask("n + 1".to_string()));
    assert!(!asked.ask("n + 1 , j".to_string()));
    assert!(asked.ask("f (x) . g [2]".to_string()));
    assert!(!asked.ask("f (x) g".to_string()));
    assert!(!asked.ask(", j".to_string()));
    assert!(!asked.ask("".to_string()));
    assert!(!asked.ask("\"open".to_string()));
    assert!(!asked.ask("n - 1 = > a [i , k]".to_string()));
    let tokens = model_lex("a[plain: n + 1, j] + b[plain: n + 1, j]");
    let group = RicciGroup::parse(&tokens, Span::CallSite, &mut asked).unwrap();
    assert_eq!(
        group.to_string(),
        " a ⟦ « n + 1 » , j ⟧ + b ⟦ « n + 1 » , j ⟧"
    );
}

#[test]
fn host_expression_is_the_longest_run_that_reads_as_one() {
    let group = RicciGroup::from_tokens(&model_lex("a[plain: |x, y| x + y, j]")).unwrap();
    assert_eq!(group.to_string(), " a ⟦ « | x , y | x + y » , j ⟧");
    let group = RicciGroup::from_tokens(&model_lex("a[plain: f::<u8, u16>(n), j]")).unwrap();
    assert_eq!(
        group.to_string(),
        " a ⟦ « f ::< u8 , u16 > (n) » , j ⟧"
    );
    let group = RicciGroup::from_tokens(&model_lex("a[plain: n, plain: m]")).unwrap();
    assert_eq!(group.to_string(), " a ⟦ « n » , « m » ⟧");
    let error = RicciGroup::from_tokens(&model_lex("a[plain: + , j]")).unwrap_err();
    assert_eq!(error.kind, ErrorKind::ExpectedExpression);
}

#[test]
fn group_without_brackets_is_one_token_of_a_host_expression() {
    let inner = model_lex("n + 1");
    let bare = TokenTree::Group(Group {
        delimiter: Delimiter::Bare,
        stream: inner,
        span: Span::At(50),
    });
    let mut tokens = model_lex("a");
    let mut list = model_lex("plain: 2 *");
    list.push(bare);
    list.extend(model_lex(", j"));
    assert_eq!(
        stream_to_string(&tensorism_gen::text::put_all_in_brackets(&list, 2, 5)),
        "2 * (n + 1)"
    );
    tokens.push(TokenTree::Group(Group {
        delimiter: Delimiter::Bracket,
        stream: list,
        span: Span::At(60),
    }));
    let group = RicciGroup::from_tokens(&tokens).unwrap();
    match &group.segments[0] {
        RicciSegment::TensorCall { indexers, .. } => {
            assert_eq!(indexers.len(), 2);
            match &indexers[0] {
                RicciIndexer::Plain { expr } => {
                    assert_eq!(expr.len(), 3);
                    assert_eq!(stream_to_string(expr), "2 * n + 1");
                }
                other => panic!("unexpected indexer {:?}", other),
            }
        }
        other => panic!("unexpected segment {:?}", other),
    }
}
