use tensorism_gen::emit::{emit_number, write_decimal};
use tensorism_gen::error::ErrorKind;
use tensorism_gen::parsing::parse;
use tensorism_gen::sequentialization::{
    dimension_ident, sequentialize, sequentialize_body, sequentialize_header,
    sequentialize_sequence, sequentialize_shape_creation, sequentialize_tensor_func,
    try_extract_func,
};
use tensorism_gen::text::stream_to_string;
use tensorism_gen::token::{Delimiter, Group, Ident, Literal, Punct, Spacing, Span, TokenTree};
use tensorism_gen::types::{EinsteinAlternative, EinsteinFunction, EinsteinSequence};
use tensorism_gen::{format_new_ndarray, new_ndarray};

fn generation_convert(stream: proc_macro2::TokenStream, next: &mut usize) -> Vec<TokenTree> {
    let mut out = Vec::new();
    for tree in stream {
        let span = Span::At(*next);
        *next += 1;
        out.push(match tree {
            proc_macro2::TokenTree::Ident(ident) => TokenTree::Ident(Ident {
                name: ident.to_string(),
                span,
            }),
            proc_macro2::TokenTree::Punct(punct) => TokenTree::Punct(Punct {
                ch: punct.as_char(),
                spacing: match punct.spacing() {
                    proc_macro2::Spacing::Alone => Spacing::Alone,
                    proc_macro2::Spacing::Joint => Spacing::Joint,
                },
                span,
            }),
            proc_macro2::TokenTree::Literal(literal) => TokenTree::Literal(Literal {
                text: literal.to_string(),
                span,
            }),
            proc_macro2::TokenTree::Group(group) => TokenTree::Group(Group {
                delimiter: match group.delimiter() {
                    proc_macro2::Delimiter::Parenthesis => Delimiter::Parenthesis,
                    proc_macro2::Delimiter::Brace => Delimiter::Brace,
                    proc_macro2::Delimiter::Bracket => Delimiter::Bracket,
                    proc_macro2::Delimiter::None => Delimiter::Bare,
                },
                stream: generation_convert(group.stream(), next),
                span,
            }),
        });
    }
    out
}

fn generation_lex(source: &str) -> Vec<TokenTree> {
    let stream: proc_macro2::TokenStream = source.parse().unwrap();
    let mut next = 0;
    generation_convert(stream, &mut next)
}

fn as_lexed(code: &str) -> String {
    let stream: proc_macro2::TokenStream = code.parse().unwrap();
    stream.to_string()
}

fn generated(source: &str) -> String {
    stream_to_string(&new_ndarray(&generation_lex(source)).unwrap())
}

fn spans(tokens: &[TokenTree], out: &mut Vec<(String, Span)>) {
    for token in tokens {
        match token {
            TokenTree::Group(group) => {
                out.push((format!("{:?}", group.delimiter), group.span));
                spans(&group.stream, out);
            }
            TokenTree::Ident(ident) => out.push((ident.name.clone(), ident.span)),
            TokenTree::Punct(punct) => out.push((punct.ch.to_string(), punct.span)),
            TokenTree::Literal(literal) => out.push((literal.text.clone(), literal.span)),
        }
    }
}

#[test]
fn sole_scope_becomes_a_builder_call() {
    let text = generated("i $ a[i]");
    assert_eq!(
        text,
        "{ let i_dimension : :: tensorism :: dimensions :: Dim :: < _ > = \
         :: tensorism :: tensors :: Tensor :: shape (& a) . 0 ; \
         :: tensorism :: building :: TensorBuilding :: with (i_dimension) . \
         define (| (i ,) | { (* unsafe { a . get_unchecked (i) }) }) }"
    );
    assert_eq!(
        text,
        as_lexed(
            "{
                let i_dimension: ::tensorism::dimensions::Dim:: <_> =
                    ::tensorism::tensors::Tensor::shape(&a).0;
                ::tensorism::building::TensorBuilding::with(i_dimension)
                    .define(|(i,)| { (*unsafe { a.get_unchecked(i) }) })
            }"
        )
    );
    assert!(text.contains("with (i_dimension) . define ("));
    assert!(!text.contains("0usize"));
}

#[test]
fn scope_inside_an_expression_becomes_an_iterator() {
    let text = generated("sum(i $ a[i])");
    assert_eq!(
        text,
        as_lexed(
            "{
                let i_dimension: ::tensorism::dimensions::Dim:: <_> =
                    ::tensorism::tensors::Tensor::shape(&a).0;
                sum((0usize..i_dimension.into()).map(move |i| (i,))
                    .map(|(i,)| { (*unsafe { a.get_unchecked(i) }) }))
            }"
        )
    );
    assert!(text.contains("(0usize .. i_dimension . into ()) . map (move | i | (i ,))"));
    assert!(!text.contains("TensorBuilding"));
    assert!(!text.contains("define"));
}

#[test]
fn two_indexes_nest_in_the_order_of_declaration() {
    let text = generated("(i j $ a[i, j] + i as f64).sum()");
    assert_eq!(
        text,
        as_lexed(
            "{
                let i_dimension: ::tensorism::dimensions::Dim:: <_> =
                    ::tensorism::tensors::Tensor::shape(&a).0;
                let j_dimension: ::tensorism::dimensions::Dim:: <_> =
                    ::tensorism::tensors::Tensor::shape(&a).1;
                ((0usize..i_dimension.into()).flat_map(move |i|
                    (0usize..j_dimension.into()).map(move |j| (i, j,)))
                    .map(|(i, j,)| { (*unsafe { a.get_unchecked(i, j) }) + i as f64 })).sum()
            }"
        )
    );
}

#[test]
fn every_further_use_of_an_index_is_asserted_to_agree() {
    let text = generated("i $ (j $ a[i, j] + b[j])");
    assert_eq!(
        text,
        as_lexed(
            "{
                let i_dimension: ::tensorism::dimensions::Dim:: <_> =
                    ::tensorism::tensors::Tensor::shape(&a).0;
                let j_dimension: ::tensorism::dimensions::Dim:: <_> =
                    ::tensorism::tensors::Tensor::shape(&a).1;
                ::tensorism::dimensions::identical(
                    ::tensorism::tensors::Tensor::shape(&a).1,
                    ::tensorism::tensors::Tensor::shape(&b).0);
                ::tensorism::building::TensorBuilding::with(i_dimension).define(|(i,)| {
                    ((0usize..j_dimension.into()).map(move |j| (j,))
                        .map(|(j,)| {
                            (*unsafe { a.get_unchecked(i, j) }) + (*unsafe { b.get_unchecked(j) })
                        }))
                })
            }"
        )
    );
}

#[test]
fn builder_takes_one_extent_for_each_index() {
    let text = generated("i j k $ a[i, j, k] + b[k, i] * c[i]");
    assert_eq!(
        text,
        as_lexed(
            "{
                let i_dimension: ::tensorism::dimensions::Dim:: <_> =
                    ::tensorism::tensors::Tensor::shape(&a).0;
                ::tensorism::dimensions::identical(
                    ::tensorism::tensors::Tensor::shape(&a).0,
                    ::tensorism::tensors::Tensor::shape(&b).1);
                ::tensorism::dimensions::identical(
                    ::tensorism::tensors::Tensor::shape(&a).0,
                    ::tensorism::tensors::Tensor::shape(&c).0);
                let j_dimension: ::tensorism::dimensions::Dim:: <_> =
                    ::tensorism::tensors::Tensor::shape(&a).1;
                let k_dimension: ::tensorism::dimensions::Dim:: <_> =
                    ::tensorism::tensors::Tensor::shape(&a).2;
                ::tensorism::dimensions::identical(
                    ::tensorism::tensors::Tensor::shape(&a).2,
                    ::tensorism::tensors::Tensor::shape(&b).0);
                ::tensorism::building::TensorBuilding::with(i_dimension)
                    .with(j_dimension).with(k_dimension)
                    .define(|(i, j, k,)| {
                        (*unsafe { a.get_unchecked(i, j, k) })
                            + (*unsafe { b.get_unchecked(k, i) })
                            * (*unsafe { c.get_unchecked(i) })
                    })
            }"
        )
    );
}

#[test]
fn unequal_extents_are_left_to_the_generated_assertion() {
    let tokens = generation_lex("i $ a[i] + b[i]");
    let code = new_ndarray(&tokens).unwrap();
    let text = stream_to_string(&code);
    assert!(text.contains(
        ":: tensorism :: dimensions :: identical (:: tensorism :: tensors :: Tensor :: shape (& a) . 0 , \
         :: tensorism :: tensors :: Tensor :: shape (& b) . 0) ;"
    ));
}

#[test]
fn expression_without_scope_is_passed_through() {
    assert_eq!(generated("x + f(y, 2) * z"), "{ x + f (y , 2) * z }");
    assert_eq!(generated(""), "{ }");
    assert_eq!(generated("(x)"), "{ (x) }");
}

#[test]
fn scope_without_index_is_lowered_as_its_body() {
    assert_eq!(generated("$ x + 1"), "{ x + 1 }");
    assert_eq!(
        generated("f($ x)"),
        as_lexed("{ f((,).map(|(,)| { x })) }")
    );
}

#[test]
fn nested_scopes_iterate_inside_each_other() {
    let text = generated("Iterator::sum(i $ Iterator::min(j $ a[i, j]).unwrap())");
    assert_eq!(
        text,
        as_lexed(
            "{
                let i_dimension: ::tensorism::dimensions::Dim:: <_> =
                    ::tensorism::tensors::Tensor::shape(&a).0;
                let j_dimension: ::tensorism::dimensions::Dim:: <_> =
                    ::tensorism::tensors::Tensor::shape(&a).1;
                Iterator::sum((0usize..i_dimension.into()).map(move |i| (i,)).map(|(i,)| {
                    Iterator::min((0usize..j_dimension.into()).map(move |j| (j,))
                        .map(|(j,)| { (*unsafe { a.get_unchecked(i, j) }) })).unwrap()
                }))
            }"
        )
    );
}

#[test]
fn generated_tokens_point_at_their_sources() {
    let tokens = generation_lex("i $ a[i] + b[i]");
    let code = new_ndarray(&tokens).unwrap();
    assert_eq!(code.len(), 1);
    let mut found = Vec::new();
    spans(&code, &mut found);
    assert_eq!(found[0], ("Brace".to_string(), Span::CallSite));
    assert_eq!(found[1], ("let".to_string(), Span::At(2)));
    assert_eq!(found[2], ("i_dimension".to_string(), Span::CallSite));
    assert_eq!(found[3], (":".to_string(), Span::At(2)));
    let literal = found.iter().find(|(text, _)| text == "0").unwrap();
    assert_eq!(literal.1, Span::CallSite);
    let identical = found.iter().find(|(text, _)| text == "identical").unwrap();
    assert_eq!(identical.1, Span::At(8));
    let define = found.iter().find(|(text, _)| text == "define").unwrap();
    assert_eq!(define.1, Span::CallSite);
    let with = found.iter().find(|(text, _)| text == "with").unwrap();
    assert_eq!(with.1, Span::At(0));
    let unchecked = found.iter().find(|(text, _)| text == "get_unchecked").unwrap();
    assert_eq!(unchecked.1, Span::At(3));
}

#[test]
fn generated_punctuation_is_glued_like_the_lexer_glues_it() {
    let code = new_ndarray(&generation_lex("f(i $ a[i])")).unwrap();
    let text = stream_to_string(&code);
    let relexed = generation_lex(&text);
    assert_eq!(stream_to_string(&relexed), text);
    fn shape(tokens: &[TokenTree], out: &mut Vec<String>) {
        for token in tokens {
            match token {
                TokenTree::Group(group) => {
                    out.push(format!("{:?}", group.delimiter));
                    shape(&group.stream, out);
                    out.push("end".to_string());
                }
                TokenTree::Ident(ident) => out.push(ident.name.clone()),
                TokenTree::Punct(punct) => out.push(format!("{}{:?}", punct.ch, punct.spacing)),
                TokenTree::Literal(literal) => out.push(literal.text.clone()),
            }
        }
    }
    let mut ours = Vec::new();
    shape(&code, &mut ours);
    let mut theirs = Vec::new();
    shape(&relexed, &mut theirs);
    assert_eq!(ours, theirs);
}

#[test]
fn text_of_the_code_on_one_line() {
    assert_eq!(
        format_new_ndarray(&generation_lex("x + 1")).unwrap(),
        "{ x + 1 } "
    );
    let error = format_new_ndarray(&generation_lex("x; y")).unwrap_err();
    assert_eq!(error.kind, ErrorKind::ForbiddenSemicolon);
}

#[test]
fn extraction_takes_a_sole_scope_only() {
    let (sequence, _) = parse(&generation_lex("i $ a[i]")).unwrap();
    let func = try_extract_func(sequence).ok().unwrap();
    assert_eq!(func.inverted_indexes.len(), 1);
    assert_eq!(func.inverted_indexes[0].name, "i");
    assert_eq!(func.sequence.content.len(), 1);

    let (sequence, _) = parse(&generation_lex("1 + i $ a[i]")).unwrap();
    let back = try_extract_func(sequence).err().unwrap();
    assert_eq!(back.content.len(), 3);

    let (sequence, _) = parse(&generation_lex("(i $ a[i])")).unwrap();
    let back = try_extract_func(sequence).err().unwrap();
    assert_eq!(back.content.len(), 1);
    assert!(matches!(back.content[0], EinsteinAlternative::Sequence(_)));

    let (sequence, _) = parse(&generation_lex("$ x y")).unwrap();
    let body = try_extract_func(sequence).err().unwrap();
    assert_eq!(body.content.len(), 2);
    assert_eq!(body.span, Span::At(0));

    let back = try_extract_func(EinsteinSequence::initial()).err().unwrap();
    assert!(back.content.is_empty());
}

#[test]
fn pieces_of_the_generator() {
    let (sequence, index_use) = parse(&generation_lex("i j $ a[i, j] * b[j]")).unwrap();
    let header = sequentialize_header(index_use);
    assert_eq!(
        stream_to_string(&header),
        as_lexed(
            "let i_dimension: ::tensorism::dimensions::Dim:: <_> =
                ::tensorism::tensors::Tensor::shape(&a).0;
             let j_dimension: ::tensorism::dimensions::Dim:: <_> =
                ::tensorism::tensors::Tensor::shape(&a).1;
             ::tensorism::dimensions::identical(
                ::tensorism::tensors::Tensor::shape(&a).1,
                ::tensorism::tensors::Tensor::shape(&b).0);"
        )
    );
    let func = try_extract_func(sequence).ok().unwrap();
    let creation = sequentialize_shape_creation(&func);
    assert_eq!(
        stream_to_string(&creation),
        as_lexed(
            "::tensorism::building::TensorBuilding::with(i_dimension).with(j_dimension)
                .define(|(i, j,)| {
                    (*unsafe { a.get_unchecked(i, j) }) * (*unsafe { b.get_unchecked(j) })
                })"
        )
    );
    let mut stream = generation_lex("x =");
    sequentialize_tensor_func(&func, &mut stream);
    assert_eq!(
        stream_to_string(&stream),
        as_lexed(
            "x = (0usize..i_dimension.into()).flat_map(move |i|
                    (0usize..j_dimension.into()).map(move |j| (i, j,)))
                .map(|(i, j,)| {
                    (*unsafe { a.get_unchecked(i, j) }) * (*unsafe { b.get_unchecked(j) })
                })"
        )
    );
    let mut stream = Vec::new();
    sequentialize_sequence(&func.sequence, &mut stream);
    assert_eq!(
        stream_to_string(&stream),
        "(* unsafe { a . get_unchecked (i , j) }) * (* unsafe { b . get_unchecked (j) })"
    );
    let mut stream = generation_lex("return");
    sequentialize_body(EinsteinSequence::with_parens(Span::CallSite), &mut stream);
    assert_eq!(stream_to_string(&stream), "return ()");
    let empty = EinsteinFunction::new(Vec::new(), EinsteinSequence::naked(Span::CallSite));
    let mut stream = Vec::new();
    sequentialize_tensor_func(&empty, &mut stream);
    assert_eq!(stream_to_string(&stream), "(,) . map (| (,) | { })");
}

#[test]
fn whole_generator_from_its_parts() {
    let (sequence, index_use) = parse(&generation_lex("f(i $ a[i])")).unwrap();
    let code = sequentialize(sequence, index_use);
    assert_eq!(
        stream_to_string(&code),
        stream_to_string(&new_ndarray(&generation_lex("f(i $ a[i])")).unwrap())
    );
}

#[test]
fn numbers_are_written_in_base_ten() {
    for (n, text) in [
        (0usize, "0"),
        (7, "7"),
        (9, "9"),
        (10, "10"),
        (42, "42"),
        (109, "109"),
        (65535, "65535"),
        (usize::MAX, &usize::MAX.to_string()),
    ] {
        let mut out = String::from("#");
        write_decimal(n, &mut out);
        assert_eq!(out, format!("#{}", text));
        let mut tokens = Vec::new();
        emit_number(&mut tokens, n, Span::CallSite);
        assert_eq!(stream_to_string(&tokens), text);
    }
}

#[test]
fn extent_variable_is_named_after_its_index() {
    let ident = dimension_ident(&"row".to_string(), 0, Span::At(4));
    assert_eq!(ident.name, "row_dimension");
    let again = dimension_ident(&"row".to_string(), 3, Span::At(4));
    assert_eq!(again.name, "row_dimension_3");
    assert_eq!(ident.span, Span::At(4));
}

#[test]
fn position_of_the_twelfth_index() {
    let text = generated("a b c d e f g h i j k l $ t[a, b, c, d, e, f, g, h, i, j, k, l]");
    assert!(text.contains("let l_dimension : :: tensorism :: dimensions :: Dim :: < _ > = :: tensorism :: tensors :: Tensor :: shape (& t) . 11 ;"));
    assert!(text.contains("let k_dimension : :: tensorism :: dimensions :: Dim :: < _ > = :: tensorism :: tensors :: Tensor :: shape (& t) . 10 ;"));
}

#[test]
fn sole_scope_written_with_for_becomes_a_builder_call() {
    let text = generated("for i => a[i]");
    assert_eq!(
        text,
        as_lexed(
            "{
                let i_dimension: ::tensorism::dimensions::Dim:: <_> =
                    ::tensorism::tensors::Tensor::shape(&a).0;
                ::tensorism::building::TensorBuilding::with(i_dimension)
                    .define(|(i,)| { (*unsafe { a.get_unchecked(i) }) })
            }"
        )
    );
    assert_eq!(text, generated("i $ a[i]"));
    assert!(text.contains("with (i_dimension) . define ("));
    assert!(!text.contains("0usize"));
}

#[test]
fn scope_written_with_for_inside_an_expression_becomes_an_iterator() {
    let text = generated("sum(for i => a[i])");
    assert_eq!(
        text,
        as_lexed(
            "{
                let i_dimension: ::tensorism::dimensions::Dim:: <_> =
                    ::tensorism::tensors::Tensor::shape(&a).0;
                sum((0usize..i_dimension.into()).map(move |i| (i,))
                    .map(|(i,)| { (*unsafe { a.get_unchecked(i) }) }))
            }"
        )
    );
    assert_eq!(text, generated("sum(i $ a[i])"));
    assert!(!text.contains("TensorBuilding"));
    assert!(!text.contains("define"));
}

#[test]
fn both_ways_to_write_a_scope_give_the_same_code() {
    assert_eq!(
        generated("for i j => a[i, j] + b[j]"),
        generated("i j $ a[i, j] + b[j]")
    );
    assert_eq!(
        generated("for i => sum(for j => a[i, j] * b[j])"),
        generated("i $ sum(j $ a[i, j] * b[j])")
    );
    assert_eq!(
        generated("x + for i => a[i]"),
        generated("x + i $ a[i]")
    );
}

#[test]
fn scope_written_with_for_points_at_its_keyword() {
    let code = new_ndarray(&generation_lex("f(for i => a[i])")).unwrap();
    let mut found = Vec::new();
    spans(&code, &mut found);
    let maps: Vec<Span> = found
        .iter()
        .filter(|(text, _)| text == "map")
        .map(|(_, span)| *span)
        .collect();
    assert_eq!(maps, vec![Span::At(3), Span::At(2)]);
}

#[test]
fn faults_of_a_scope_written_with_for() {
    let error = new_ndarray(&generation_lex("for => a")).unwrap_err();
    assert_eq!(error.kind, ErrorKind::ExpectedIdentifier);
    assert_eq!(error.span, Span::At(1));
    let error = new_ndarray(&generation_lex("for")).unwrap_err();
    assert_eq!(error.kind, ErrorKind::ExpectedIdentifier);
    assert!(error.at_end);
    assert_eq!(error.span, Span::CallSite);
    let error = new_ndarray(&generation_lex("(for i)")).unwrap_err();
    assert_eq!(error.kind, ErrorKind::ExpectedArrow);
    assert!(error.at_end);
    assert_eq!(error.span, Span::At(0));
    let error = new_ndarray(&generation_lex("for i let k = f[i] => a[k]")).unwrap_err();
    assert_eq!(error.kind, ErrorKind::ExpectedArrow);
    assert_eq!(error.span, Span::At(2));
    let error = new_ndarray(&generation_lex("for i j => a[i]")).unwrap_err();
    assert_eq!(error.kind, ErrorKind::UnusedIndex);
    assert_eq!(error.subject, "j");
    let error = new_ndarray(&generation_lex("for i => a[i] + (for i => b[i])")).unwrap_err();
    assert_eq!(error.kind, ErrorKind::ReusedIndex);
    let error = new_ndarray(&generation_lex("for i => { while x { a[i] } }")).unwrap_err();
    assert_eq!(error.kind, ErrorKind::ForbiddenBraces);
    let error = new_ndarray(&generation_lex("sum(for i => a[i]) + b[i]")).unwrap_err();
    assert_eq!(error.kind, ErrorKind::UndeclaredIndex);
    assert_eq!(error.span, Span::At(12));
}

#[test]
fn scopes_side_by_side_get_extent_variables_of_their_own() {
    let text = generated("sum(j $ b[j]) + sum(j $ c[j])");
    assert_eq!(
        text,
        as_lexed(
            "{
                let j_dimension: ::tensorism::dimensions::Dim:: <_> =
                    ::tensorism::tensors::Tensor::shape(&b).0;
                let j_dimension_1: ::tensorism::dimensions::Dim:: <_> =
                    ::tensorism::tensors::Tensor::shape(&c).0;
                sum((0usize..j_dimension.into()).map(move |j| (j,))
                    .map(|(j,)| { (*unsafe { b.get_unchecked(j) }) }))
                + sum((0usize..j_dimension_1.into()).map(move |j| (j,))
                    .map(|(j,)| { (*unsafe { c.get_unchecked(j) }) }))
            }"
        )
    );
    assert_eq!(text, generated("sum(for j => b[j]) + sum(for j => c[j])"));
    let text = generated("f(i $ a[i]) + g(j i $ b[i, j]) + h(i $ c[i])");
    assert!(text.contains("let i_dimension :"));
    assert!(text.contains("let i_dimension_1 :"));
    assert!(text.contains("let i_dimension_2 :"));
    assert!(text.contains("(0usize .. j_dimension . into ()) . flat_map (move | j | (0usize .. i_dimension_1 . into ())"));
    assert!(text.contains("h ((0usize .. i_dimension_2 . into ())"));
}

#[test]
fn sole_scope_after_a_closed_one_builds_with_its_own_extent() {
    let (sequence, _) = parse(&generation_lex("f(i $ a[i])")).unwrap();
    drop(sequence);
    let mut index_use = tensorism_gen::types::IndexUse::new();
    let first = Ident { name: "i".to_string(), span: Span::At(0) };
    assert_eq!(index_use.rank_of(&first), 0);
    assert!(index_use.declare_new(first.clone()));
    assert_eq!(index_use.rank_of(&first), 1);
    let func = EinsteinFunction::ranked(
        vec![Ident { name: "i".to_string(), span: Span::At(5) }],
        vec![1],
        EinsteinSequence::naked(Span::At(6)),
    );
    assert_eq!(
        stream_to_string(&sequentialize_shape_creation(&func)),
        as_lexed("::tensorism::building::TensorBuilding::with(i_dimension_1).define(|(i,)| { })")
    );
}

#[test]
fn raw_identifier_gives_a_plain_extent_variable() {
    let ident = dimension_ident(&"r#type".to_string(), 0, Span::CallSite);
    assert_eq!(ident.name, "type_dimension");
    let ident = dimension_ident(&"r#type".to_string(), 12, Span::CallSite);
    assert_eq!(ident.name, "type_dimension_12");
    let ident = dimension_ident(&"r".to_string(), 0, Span::CallSite);
    assert_eq!(ident.name, "r_dimension");
    let ident = dimension_ident(&"r#".to_string(), 0, Span::CallSite);
    assert_eq!(ident.name, "_dimension");
    assert_eq!(tensorism_gen::sequentialization::stem_of(&"rx#y".to_string()), "rx#y");
    assert_eq!(tensorism_gen::sequentialization::rank_of(&vec![4, 5], 1), 5);
    assert_eq!(tensorism_gen::sequentialization::rank_of(&vec![4, 5], 2), 0);
}

#[test]
fn whatever_is_read_can_be_lowered() {
    for source in [
        "",
        "x",
        "for i => a[i]",
        "i $ a[i]",
        "i j $ a[j, i] - b[i]",
        "f(i $ a[i], j $ b[j, j])",
        "$ 1",
        "(((i $ a[i])))",
        "for i j k => t[i, j, k] + u[k, j, i] * (for l => v[l, i])",
        "a[] + i $ b[i]",
        "for i => a[i] + for j => b[j]",
    ] {
        let tokens = generation_lex(source);
        let (sequence, index_use) = parse(&tokens).unwrap();
        let code = sequentialize(sequence, index_use);
        assert_eq!(code.len(), 1, "for {}", source);
        match &code[0] {
            TokenTree::Group(group) => {
                assert_eq!(group.delimiter, Delimiter::Brace);
                assert_eq!(group.span, Span::CallSite);
            }
            other => panic!("unexpected token {:?}", other),
        }
        assert!(new_ndarray(&tokens).is_ok());
    }
}
