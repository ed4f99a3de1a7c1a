use tensorism_gen::error::ErrorKind;
use tensorism_gen::inspection::{inspect, HeadKind, IndexingPositionMapping, ScopeTable};
use tensorism_gen::inspection::{IndexingPosition, RETURN_POSITION};
use tensorism_gen::model::lambda::RicciGroup;
use tensorism_gen::new_ndarray2;
use tensorism_gen::text::stream_to_string;
use tensorism_gen::token::{Delimiter, Group, Ident, Literal, Punct, Spacing, Span, TokenTree};

fn inspection_convert(stream: proc_macro2::TokenStream, next: &mut usize) -> Vec<TokenTree> {
    let mut out = Vec::new();
    for tree in stream {
        let span = Span::At(*next);
        *next += 1;
        out.push(match tree {
            proc_macro2::TokenTree::Ident(ident) => TokenTree::Ident(Ident {
                name: ident.to_string(),
                span,
            }),
            proc_macro2::TokenTree::Punct(punct) => TokenTree::Punct(Punct {
                ch: punct.as_char(),
                spacing: match punct.spacing() {
                    proc_macro2::Spacing::Alone => Spacing::Alone,
                    proc_macro2::Spacing::Joint => Spacing::Joint,
                },
                span,
            }),
            proc_macro2::TokenTree::Literal(literal) => TokenTree::Literal(Literal {
                text: literal.to_string(),
                span,
            }),
            proc_macro2::TokenTree::Group(group) => TokenTree::Group(Group {
                delimiter: match group.delimiter() {
                    proc_macro2::Delimiter::Parenthesis => Delimiter::Parenthesis,
                    proc_macro2::Delimiter::Brace => Delimiter::Brace,
                    proc_macro2::Delimiter::Bracket => Delimiter::Bracket,
                    proc_macro2::Delimiter::None => Delimiter::Bare,
                },
                stream: inspection_convert(group.stream(), next),
                span,
            }),
        });
    }
    out
}

fn inspection_lex(source: &str) -> Vec<TokenTree> {
    let stream: proc_macro2::TokenStream = source.parse().unwrap();
    let mut next = 0;
    inspection_convert(stream, &mut next)
}

fn inspected(source: &str) -> IndexingPositionMapping {
    let group = RicciGroup::from_tokens(&inspection_lex(source)).unwrap();
    inspect(&group).unwrap()
}

fn classes(mapping: &IndexingPositionMapping) -> Vec<Vec<(String, usize, HeadKind)>> {
    mapping
        .get_equivalences()
        .iter()
        .map(|class| {
            class
                .positions()
                .iter()
                .map(|p| (p.name().name.clone(), p.position(), p.kind()))
                .collect()
        })
        .collect()
}

fn place(name: &str, position: usize) -> (String, usize, HeadKind) {
    (name.to_string(), position, HeadKind::Tensor)
}

#[test]
fn inspect_lambda() {
    let mapping = inspected("for i => a[i] + 3");

    let equivalences = mapping.get_equivalences();
    let plain_values = mapping.get_plain_values();

    assert_eq!(0, plain_values.len());
    assert_eq!(1, equivalences.len());
    assert_eq!(1, equivalences[0].positions().len());
    assert!(equivalences[0].positions()[0].is("a", 0, HeadKind::Tensor));

    let mapping = inspected("for i j k => a[i, j] + b[j, k] * c[i]");

    let equivalences = mapping.get_equivalences();
    let plain_values = mapping.get_plain_values();

    assert_eq!(0, plain_values.len());
    assert_eq!(3, equivalences.len());
    assert_eq!(2, equivalences[0].positions().len());
    assert!(equivalences[0].positions()[0].is("a", 0, HeadKind::Tensor));
    assert!(equivalences[0].positions()[1].is("c", 0, HeadKind::Tensor));
    assert_eq!(2, equivalences[1].positions().len());
    assert!(equivalences[1].positions()[0].is("a", 1, HeadKind::Tensor));
    assert!(equivalences[1].positions()[1].is("b", 0, HeadKind::Tensor));
    assert_eq!(1, equivalences[2].positions().len());
    assert!(equivalences[2].positions()[0].is("b", 1, HeadKind::Tensor));
}

#[test]
fn inspect_group() {
    let mapping = inspected(
        "product(for i => a[i] + sum(for j => b[i, j]) * mean(for j => c[j, i, j] / d[j]))",
    );

    let equivalences = mapping.get_equivalences();

    assert_eq!(3, equivalences.len());
    assert_eq!(1, equivalences[0].positions().len());
    assert!(equivalences[0].positions()[0].is("b", 1, HeadKind::Tensor));
    assert_eq!(3, equivalences[1].positions().len());
    assert!(equivalences[1].positions()[0].is("c", 0, HeadKind::Tensor));
    assert!(equivalences[1].positions()[1].is("c", 2, HeadKind::Tensor));
    assert!(equivalences[1].positions()[2].is("d", 0, HeadKind::Tensor));
    assert_eq!(3, equivalences[2].positions().len());
    assert!(equivalences[2].positions()[0].is("a", 0, HeadKind::Tensor));
    assert!(equivalences[2].positions()[1].is("b", 0, HeadKind::Tensor));
    assert!(equivalences[2].positions()[2].is("c", 1, HeadKind::Tensor));

    let mapping = inspected(
        "3.5 * median(
            for i => a[i] +
                sum(for j => if i < j { b[every3[i], j] } else { c[j] + 4.0 }) -
                max(for j => d[j, every4[j]] - e[sorted_by_a[j], i])
        )",
    );

    let equivalences = mapping.get_equivalences();

    assert_eq!(6, equivalences.len());
    assert_eq!(2, equivalences[0].positions().len());
    assert!(equivalences[0].positions()[0].is("b", 0, HeadKind::Tensor));
    assert!(equivalences[0].positions()[1].is("every3", usize::MAX, HeadKind::Indexer));
    assert_eq!(2, equivalences[1].positions().len());
    assert!(equivalences[1].positions()[0].is("b", 1, HeadKind::Tensor));
    assert!(equivalences[1].positions()[1].is("c", 0, HeadKind::Tensor));
    assert_eq!(2, equivalences[2].positions().len());
    assert!(equivalences[2].positions()[0].is("d", 1, HeadKind::Tensor));
    assert!(equivalences[2].positions()[1].is("every4", usize::MAX, HeadKind::Indexer));
    assert_eq!(2, equivalences[3].positions().len());
    assert!(equivalences[3].positions()[0].is("e", 0, HeadKind::Tensor));
    assert!(equivalences[3].positions()[1].is("sorted_by_a", usize::MAX, HeadKind::Indexer));
    assert_eq!(3, equivalences[4].positions().len());
    assert!(equivalences[4].positions()[0].is("d", 0, HeadKind::Tensor));
    assert!(equivalences[4].positions()[1].is("every4", 0, HeadKind::Indexer));
    assert!(equivalences[4].positions()[2].is("sorted_by_a", 0, HeadKind::Indexer));
    assert_eq!(3, equivalences[5].positions().len());
    assert!(equivalences[5].positions()[0].is("a", 0, HeadKind::Tensor));
    assert!(equivalences[5].positions()[1].is("every3", 0, HeadKind::Indexer));
    assert!(equivalences[5].positions()[2].is("e", 1, HeadKind::Tensor));
}

#[test]
fn one_index_one_array_gives_one_class() {
    let mapping = inspected("for i => a[i] + 3");
    assert_eq!(classes(&mapping), vec![vec![place("a", 0)]]);
}

#[test]
fn three_indexes_give_three_classes() {
    let mapping = inspected("for i j k => a[i, j] + b[j, k] * c[i]");
    assert_eq!(
        classes(&mapping),
        vec![
            vec![place("a", 0), place("c", 0)],
            vec![place("a", 1), place("b", 0)],
            vec![place("b", 1)],
        ]
    );
}

#[test]
fn classes_of_one_scope_come_in_the_order_of_first_use() {
    let mapping = inspected("for i j k => a[k, i] + b[j, k] * c[i]");
    assert_eq!(
        classes(&mapping),
        vec![
            vec![place("a", 0), place("b", 1)],
            vec![place("a", 1), place("c", 0)],
            vec![place("b", 0)],
        ]
    );
}

#[test]
fn an_index_without_use_gives_no_class() {
    let mapping = inspected("for i j => a[j]");
    assert_eq!(classes(&mapping), vec![vec![place("a", 0)]]);
    let mapping = inspected("for i => 3");
    assert!(classes(&mapping).is_empty());
}

#[test]
fn inner_scope_closes_before_the_outer_one() {
    let mapping = inspected("for i => a[i] + sum(for j => b[i, j])");
    assert_eq!(
        classes(&mapping),
        vec![vec![place("b", 1)], vec![place("a", 0), place("b", 0)]]
    );
}

#[test]
fn a_name_can_be_declared_again_after_its_scope_closed() {
    let mapping = inspected("sum(for i => a[i]) + sum(for i => b[i] * c[i])");
    assert_eq!(
        classes(&mapping),
        vec![vec![place("a", 0)], vec![place("b", 0), place("c", 0)]]
    );
}

#[test]
fn a_closed_index_is_unknown_to_what_follows() {
    let group = RicciGroup::from_tokens(&inspection_lex("sum(for i => a[i]) + b[i]")).unwrap();
    let error = inspect(&group).unwrap_err();
    assert_eq!(error.kind, ErrorKind::UnknownIndex);
    assert_eq!(error.subject, "i");
    assert_eq!(error.span, Span::At(12));
    assert_eq!(
        error.message(),
        "Index 'i' is not declared in the current scope"
    );
}

#[test]
fn an_open_name_cannot_be_declared_again() {
    let group =
        RicciGroup::from_tokens(&inspection_lex("for i => a[i] + sum(for i => b[i])")).unwrap();
    let error = inspect(&group).unwrap_err();
    assert_eq!(error.kind, ErrorKind::DuplicateIndex);
    assert_eq!(error.subject, "i");
    assert_eq!(
        error.message(),
        "Index 'i' is already declared in the current scope"
    );

    let group = RicciGroup::from_tokens(&inspection_lex("for i i => a[i]")).unwrap();
    let error = inspect(&group).unwrap_err();
    assert_eq!(error.kind, ErrorKind::DuplicateIndex);
    assert_eq!(error.span, Span::At(2));
}

#[test]
fn an_undeclared_index_is_a_fault() {
    let group = RicciGroup::from_tokens(&inspection_lex("for i => a[i, j]")).unwrap();
    let error = inspect(&group).unwrap_err();
    assert_eq!(error.kind, ErrorKind::UnknownIndex);
    assert_eq!(error.subject, "j");

    let group = RicciGroup::from_tokens(&inspection_lex("a[rev: i]")).unwrap();
    let error = inspect(&group).unwrap_err();
    assert_eq!(error.kind, ErrorKind::UnknownIndex);
}

#[test]
fn reverse_counts_as_a_use() {
    let mapping = inspected("for i => a[rev: i] - b[i]");
    assert_eq!(classes(&mapping), vec![vec![place("a", 0), place("b", 0)]]);
}

#[test]
fn reindexing_links_the_position_to_the_result_of_the_indexer() {
    let mapping = inspected("for i => a[f[i, i]]");
    assert_eq!(
        classes(&mapping),
        vec![
            vec![
                place("a", 0),
                ("f".to_string(), RETURN_POSITION, HeadKind::Indexer)
            ],
            vec![
                ("f".to_string(), 0, HeadKind::Indexer),
                ("f".to_string(), 1, HeadKind::Indexer)
            ],
        ]
    );
    assert_eq!(RETURN_POSITION, usize::MAX);
}

#[test]
fn plain_values_are_bound_to_their_places() {
    let mapping = inspected("for i => a[i, plain: n + 1] + b[plain: 0, i] + a[i, plain: m]");
    assert_eq!(
        classes(&mapping),
        vec![vec![place("a", 0), place("b", 1), place("a", 0)]]
    );
    let plain_values = mapping.get_plain_values();
    assert_eq!(plain_values.len(), 2);
    assert!(plain_values[0].position.is("a", 1, HeadKind::Tensor));
    assert_eq!(stream_to_string(&plain_values[0].expr), "m");
    assert!(plain_values[1].position.is("b", 0, HeadKind::Tensor));
    assert_eq!(stream_to_string(&plain_values[1].expr), "0");
}

#[test]
fn scope_table_moves_an_index_to_the_end_at_its_first_use() {
    let i = Ident { name: "i".to_string(), span: Span::At(1) };
    let j = Ident { name: "j".to_string(), span: Span::At(2) };
    let a = Ident { name: "a".to_string(), span: Span::At(3) };
    let mut table = ScopeTable::new();
    let mut mapping = IndexingPositionMapping::new();
    table.declare(&i).unwrap();
    table.declare(&j).unwrap();
    assert_eq!(table.len(), 2);
    assert_eq!(table.find(&i), Some(0));
    assert_eq!(table.declare(&i).unwrap_err().kind, ErrorKind::DuplicateIndex);
    table.record(&i, IndexingPosition::new(&a, 1, HeadKind::Tensor)).unwrap();
    assert_eq!(table.find(&i), Some(1));
    assert_eq!(table.find(&j), Some(0));
    table.record(&j, IndexingPosition::new(&a, 0, HeadKind::Tensor)).unwrap();
    table.record(&i, IndexingPosition::new(&a, 2, HeadKind::Tensor)).unwrap();
    assert_eq!(table.find(&i), Some(0));
    assert_eq!(table.find(&j), Some(1));
    table.close(&vec![j.clone()], &mut mapping);
    assert_eq!(table.len(), 1);
    assert_eq!(table.find(&j), None);
    assert_eq!(
        table
            .record(&j, IndexingPosition::new(&a, 0, HeadKind::Tensor))
            .unwrap_err()
            .kind,
        ErrorKind::UnknownIndex
    );
    table.close(&vec![i.clone()], &mut mapping);
    assert_eq!(
        classes(&mapping),
        vec![vec![place("a", 0)], vec![place("a", 1), place("a", 2)]]
    );
}

#[test]
fn reading_and_inspecting_in_one_call() {
    let mapping = new_ndarray2(&inspection_lex("for i => a[i] + 3")).unwrap();
    assert_eq!(classes(&mapping), vec![vec![place("a", 0)]]);
    let error = new_ndarray2(&inspection_lex("for i => { while x { a[i] } }")).unwrap_err();
    assert_eq!(error.kind, ErrorKind::IllegalKeyword);
    assert_eq!(error.subject, "while");
    let error = new_ndarray2(&inspection_lex("for i => a[j]")).unwrap_err();
    assert_eq!(error.kind, ErrorKind::UnknownIndex);
}
