//! The text of a tree does not depend on where its tokens stood: two
//! sequences of tokens that differ in nothing but the positions of their
//! tokens read as trees that are written as the same text.
use crate::error::ErrorModel;
use crate::model::header::{
    alias_text, identifier_at, identifier_run, identifiers, indexer_text, indexers_text,
    names_text, parse_alias_declaration, parse_index_declaration, parse_indexer, parse_indexers,
    unread_after, AliasModel, IndexerModel, Parsed,
};
use crate::model::lambda::{
    aliases_text, arrow_at, group_text, lambda_text, parse_aliases, parse_group, parse_lambda,
    parse_segment, parse_segments, segment_text, segments_text, GroupModel, LambdaModel,
    SegmentModel,
};
use crate::text::{all_in_brackets, gap_before, in_brackets, query_text, stream_text, token_text};
use crate::token::{Delimiter, IdentModel, Punct, Span, TokenModel};
use vstd::prelude::*;

verus! {

/// The identifier without its position.
pub open spec fn unplaced_ident(i: IdentModel) -> IdentModel {
    IdentModel { name: i.name, span: Span::CallSite }
}

/// The token without its position, all the way down.
pub open spec fn unplaced(t: TokenModel) -> TokenModel
    decreases t,
{
    match t {
        TokenModel::Group { delimiter, stream, .. } => TokenModel::Group {
            delimiter,
            stream: all_unplaced(stream),
            span: Span::CallSite,
        },
        TokenModel::Ident(i) => TokenModel::Ident(unplaced_ident(i)),
        TokenModel::Punct(p) => TokenModel::Punct(Punct { span: Span::CallSite, ..p }),
        TokenModel::Literal { text, .. } => TokenModel::Literal { text, span: Span::CallSite },
    }
}

/// The tokens without their positions.
pub open spec fn all_unplaced(s: Seq<TokenModel>) -> Seq<TokenModel>
    decreases s,
{
    Seq::new(
        s.len(),
        |i: int|
            if 0 <= i < s.len() {
                unplaced(s[i])
            } else {
                arbitrary()
            },
    )
}

/// The identifiers without their positions.
pub open spec fn unplaced_idents(s: Seq<IdentModel>) -> Seq<IdentModel> {
    Seq::new(s.len(), |i: int| unplaced_ident(s[i]))
}

/// The indexer without the positions of its tokens.
pub open spec fn unplaced_indexer(x: IndexerModel) -> IndexerModel
    decreases x,
{
    match x {
        IndexerModel::Direct { index } => IndexerModel::Direct { index: unplaced_ident(index) },
        IndexerModel::Reindexing { reindexing_name, indexers } => IndexerModel::Reindexing {
            reindexing_name: unplaced_ident(reindexing_name),
            indexers: unplaced_indexers(indexers),
        },
        IndexerModel::Reverse { index } => IndexerModel::Reverse { index: unplaced_ident(index) },
        IndexerModel::Plain { expr } => IndexerModel::Plain { expr: all_unplaced(expr) },
    }
}

/// The indexers without the positions of their tokens.
pub open spec fn unplaced_indexers(s: Seq<IndexerModel>) -> Seq<IndexerModel>
    decreases s,
{
    Seq::new(
        s.len(),
        |i: int|
            if 0 <= i < s.len() {
                unplaced_indexer(s[i])
            } else {
                arbitrary()
            },
    )
}

/// The alias declaration without the positions of its tokens.
pub open spec fn unplaced_alias(a: AliasModel) -> AliasModel {
    AliasModel { index: unplaced_ident(a.index), indexer: unplaced_indexer(a.indexer) }
}

/// The alias declarations without the positions of their tokens.
pub open spec fn unplaced_aliases(s: Seq<AliasModel>) -> Seq<AliasModel> {
    Seq::new(s.len(), |i: int| unplaced_alias(s[i]))
}

/// The segment without the positions of its tokens.
pub open spec fn unplaced_segment(x: SegmentModel) -> SegmentModel
    decreases x,
{
    match x {
        SegmentModel::TensorCall { tensor_name, indexers } => SegmentModel::TensorCall {
            tensor_name: unplaced_ident(tensor_name),
            indexers: unplaced_indexers(indexers),
        },
        SegmentModel::SubLambda(lambda) => SegmentModel::SubLambda(unplaced_lambda(lambda)),
        SegmentModel::SubGroup { delimiter, group } => SegmentModel::SubGroup {
            delimiter,
            group: GroupModel { segments: unplaced_segments(group.segments) },
        },
        SegmentModel::Token(token) => SegmentModel::Token(unplaced(token)),
    }
}

/// The segments without the positions of their tokens.
pub open spec fn unplaced_segments(s: Seq<SegmentModel>) -> Seq<SegmentModel>
    decreases s,
{
    Seq::new(
        s.len(),
        |i: int|
            if 0 <= i < s.len() {
                unplaced_segment(s[i])
            } else {
                arbitrary()
            },
    )
}

/// The scope without the positions of its tokens.
pub open spec fn unplaced_lambda(l: LambdaModel) -> LambdaModel
    decreases l,
{
    LambdaModel {
        index_declaration: unplaced_idents(l.index_declaration),
        alias_declarations: unplaced_aliases(l.alias_declarations),
        filter: match l.filter {
            Some(tokens) => Some(all_unplaced(tokens)),
            None => None,
        },
        body: GroupModel { segments: unplaced_segments(l.body.segments) },
    }
}

/// The text of a token does not depend on positions.
pub proof fn lemma_token_text_unplaced(t: TokenModel)
    ensures
        token_text(unplaced(t)) == token_text(t),
    decreases t, 0nat,
{
    match t {
        TokenModel::Group { delimiter, stream, .. } => {
            lemma_stream_text_unplaced(stream);
        },
        _ => {},
    }
}

/// The text of a sequence of tokens does not depend on positions.
pub proof fn lemma_stream_text_unplaced(s: Seq<TokenModel>)
    ensures
        stream_text(all_unplaced(s)) == stream_text(s),
    decreases s, 1nat,
{
    let u = all_unplaced(s);
    if s.len() > 0 {
        assert(u.drop_last() =~= all_unplaced(s.drop_last()));
        assert(u.last() == unplaced(s.last()));
        lemma_stream_text_unplaced(s.drop_last());
        lemma_token_text_unplaced(s.last());
        if s.len() > 1 {
            assert(u[s.len() - 2] == unplaced(s[s.len() - 2]));
        }
        assert(gap_before(u, u.len() - 1) == gap_before(s, s.len() - 1));
    }
}

/// Putting groups in brackets and taking positions away can be done in
/// either order.
pub proof fn lemma_brackets_unplaced(s: Seq<TokenModel>)
    ensures
        all_in_brackets(all_unplaced(s)) == all_unplaced(all_in_brackets(s)),
    decreases s, 1nat,
{
    assert forall|i: int| 0 <= i < s.len() implies in_brackets(unplaced(s[i])) == unplaced(
        in_brackets(s[i]),
    ) by {
        lemma_bracket_unplaced(s[i]);
    }
    assert(all_in_brackets(all_unplaced(s)) =~= all_unplaced(all_in_brackets(s)));
}

/// Putting groups in brackets and taking positions away can be done in
/// either order.
pub proof fn lemma_bracket_unplaced(t: TokenModel)
    ensures
        in_brackets(unplaced(t)) == unplaced(in_brackets(t)),
    decreases t, 0nat,
{
    match t {
        TokenModel::Group { delimiter, stream, .. } => {
            lemma_brackets_unplaced(stream);
        },
        _ => {},
    }
}

/// The text that the parser of the host language is asked about does not
/// depend on positions.
pub proof fn lemma_query_text_unplaced(s: Seq<TokenModel>, from: int, to: int)
    requires
        0 <= from <= to <= s.len(),
    ensures
        query_text(all_unplaced(s), from, to) == query_text(s, from, to),
{
    assert(all_unplaced(s).subrange(from, to) =~= all_unplaced(s.subrange(from, to)));
    lemma_brackets_unplaced(s.subrange(from, to));
    lemma_stream_text_unplaced(all_in_brackets(s.subrange(from, to)));
}

/// Where an expression of the host language ends does not depend on
/// positions.
pub proof fn lemma_unread_after_unplaced(
    s: Seq<TokenModel>,
    pos: int,
    host: spec_fn(Seq<char>) -> bool,
    rest: int,
)
    ensures
        unread_after(all_unplaced(s), pos, host, rest) == unread_after(s, pos, host, rest),
    decreases s.len() - pos - rest,
{
    if 0 <= pos && 0 <= rest < s.len() - pos {
        lemma_query_text_unplaced(s, pos, s.len() - rest);
        if !host(query_text(s, pos, s.len() - rest)) {
            lemma_unread_after_unplaced(s, pos, host, rest + 1);
        }
    }
}

/// The text of an indexer does not depend on positions.
pub proof fn lemma_indexer_text_unplaced(x: IndexerModel)
    ensures
        indexer_text(unplaced_indexer(x)) == indexer_text(x),
    decreases x, 0nat,
{
    match x {
        IndexerModel::Reindexing { reindexing_name, indexers } => {
            lemma_indexers_text_unplaced(indexers);
        },
        IndexerModel::Plain { expr } => {
            lemma_stream_text_unplaced(expr);
        },
        _ => {},
    }
}

/// The text of a list of indexers does not depend on positions.
pub proof fn lemma_indexers_text_unplaced(s: Seq<IndexerModel>)
    ensures
        indexers_text(unplaced_indexers(s)) == indexers_text(s),
    decreases s, 1nat,
{
    let u = unplaced_indexers(s);
    if s.len() > 0 {
        assert(u.drop_last() =~= unplaced_indexers(s.drop_last()));
        assert(u.last() == unplaced_indexer(s.last()));
        lemma_indexers_text_unplaced(s.drop_last());
        lemma_indexer_text_unplaced(s.last());
    }
}

/// The text of a list of names does not depend on positions.
pub proof fn lemma_names_text_unplaced(s: Seq<IdentModel>)
    ensures
        names_text(unplaced_idents(s)) == names_text(s),
    decreases s.len(),
{
    let u = unplaced_idents(s);
    if s.len() > 0 {
        assert(u.drop_last() =~= unplaced_idents(s.drop_last()));
        lemma_names_text_unplaced(s.drop_last());
    }
}

/// The text of a list of alias declarations does not depend on positions.
pub proof fn lemma_aliases_text_unplaced(s: Seq<AliasModel>)
    ensures
        aliases_text(unplaced_aliases(s)) == aliases_text(s),
    decreases s.len(),
{
    let u = unplaced_aliases(s);
    if s.len() > 0 {
        assert(u.drop_last() =~= unplaced_aliases(s.drop_last()));
        lemma_aliases_text_unplaced(s.drop_last());
        lemma_indexer_text_unplaced(s.last().indexer);
        assert(alias_text(u.last()) == alias_text(s.last()));
    }
}

/// The text of a segment does not depend on positions.
pub proof fn lemma_segment_text_unplaced(x: SegmentModel)
    ensures
        segment_text(unplaced_segment(x)) == segment_text(x),
    decreases x, 0nat,
{
    match x {
        SegmentModel::TensorCall { tensor_name, indexers } => {
            lemma_indexers_text_unplaced(indexers);
        },
        SegmentModel::SubLambda(lambda) => {
            lemma_lambda_text_unplaced(lambda);
        },
        SegmentModel::SubGroup { delimiter, group } => {
            lemma_segments_text_unplaced(group.segments);
        },
        SegmentModel::Token(token) => {
            lemma_token_text_unplaced(token);
        },
    }
}

/// The text of a sequence of segments does not depend on positions.
pub proof fn lemma_segments_text_unplaced(s: Seq<SegmentModel>)
    ensures
        segments_text(unplaced_segments(s)) == segments_text(s),
    decreases s, 1nat,
{
    let u = unplaced_segments(s);
    if s.len() > 0 {
        assert(u.drop_last() =~= unplaced_segments(s.drop_last()));
        assert(u.last() == unplaced_segment(s.last()));
        lemma_segments_text_unplaced(s.drop_last());
        lemma_segment_text_unplaced(s.last());
    }
}

/// The text of a scope does not depend on positions.
pub proof fn lemma_lambda_text_unplaced(l: LambdaModel)
    ensures
        lambda_text(unplaced_lambda(l)) == lambda_text(l),
    decreases l, 0nat,
{
    lemma_names_text_unplaced(l.index_declaration);
    lemma_aliases_text_unplaced(l.alias_declarations);
    lemma_segments_text_unplaced(l.body.segments);
}

/// Whether two outcomes of reading are both faults, or both values of which
/// the second is the first without positions, read up to the same place.
pub open spec fn alike<T>(
    placed: Result<Parsed<T>, ErrorModel>,
    plain: Result<Parsed<T>, ErrorModel>,
    strip: spec_fn(T) -> T,
) -> bool {
    match placed {
        Ok(p) => plain matches Ok(q) && q.value == strip(p.value) && q.next == p.next,
        Err(_) => plain is Err,
    }
}

/// Whether two outcomes of reading to the end are both faults, or both
/// values of which the second is the first without positions.
pub open spec fn alike_whole<T>(
    placed: Result<T, ErrorModel>,
    plain: Result<T, ErrorModel>,
    strip: spec_fn(T) -> T,
) -> bool {
    match placed {
        Ok(p) => plain matches Ok(q) && q == strip(p),
        Err(_) => plain is Err,
    }
}

/// Tokens without positions are as many, and are the same kinds of tokens.
pub proof fn lemma_all_unplaced(s: Seq<TokenModel>)
    ensures
        all_unplaced(s).len() == s.len(),
        forall|i: int| 0 <= i < s.len() ==> #[trigger] all_unplaced(s)[i] == unplaced(s[i]),
        forall|i: int| identifier_at(all_unplaced(s), i) == identifier_at(s, i),
        forall|i: int| arrow_at(all_unplaced(s), i) == arrow_at(s, i),
{
    let u = all_unplaced(s);
    assert forall|i: int| identifier_at(u, i) == identifier_at(s, i) by {
        if 0 <= i < s.len() {
            assert(u[i] == unplaced(s[i]));
        }
    }
    assert forall|i: int| arrow_at(u, i) == arrow_at(s, i) by {
        if 0 <= i && i + 1 < s.len() {
            assert(u[i] == unplaced(s[i]));
            assert(u[i + 1] == unplaced(s[i + 1]));
        }
    }
}

/// A run of identifiers ends at the same place whatever the positions.
pub proof fn lemma_identifier_run_unplaced(s: Seq<TokenModel>, pos: int)
    ensures
        identifier_run(all_unplaced(s), pos) == identifier_run(s, pos),
    decreases s.len() - pos,
{
    lemma_all_unplaced(s);
    if identifier_at(s, pos) {
        lemma_identifier_run_unplaced(s, pos + 1);
    }
}

/// The header of a scope reads alike whatever the positions.
pub proof fn lemma_index_declaration_unplaced(s: Seq<TokenModel>, pos: int, scope: Span, other: Span)
    ensures
        alike(
            parse_index_declaration(s, pos, scope),
            parse_index_declaration(all_unplaced(s), pos, other),
            |v: Seq<IdentModel>| unplaced_idents(v),
        ),
{
    let u = all_unplaced(s);
    lemma_all_unplaced(s);
    if 0 <= pos < s.len() {
        assert(u[pos] == unplaced(s[pos]));
    }
    if 0 <= pos + 1 < s.len() {
        assert(u[pos + 1] == unplaced(s[pos + 1]));
    }
    lemma_identifier_run_unplaced(s, pos + 1);
    if parse_index_declaration(s, pos, scope) is Ok {
        crate::model::faithful::lemma_identifier_run(s, pos + 1);
        let end = identifier_run(s, pos + 1);
        assert(identifiers(u, pos + 1, end) =~= unplaced_idents(identifiers(s, pos + 1, end))) by {
            assert forall|k: int| 0 <= k < end - (pos + 1) implies #[trigger] identifiers(
                u,
                pos + 1,
                end,
            )[k] == unplaced_ident(identifiers(s, pos + 1, end)[k]) by {
                assert(identifier_at(s, pos + 1 + k));
                assert(u[pos + 1 + k] == unplaced(s[pos + 1 + k]));
            }
        }
    }
}

/// An indexer reads alike whatever the positions.
pub proof fn lemma_indexer_unplaced(
    s: Seq<TokenModel>,
    pos: int,
    scope: Span,
    other: Span,
    host: spec_fn(Seq<char>) -> bool,
)
    ensures
        alike(
            parse_indexer(s, pos, scope, host),
            parse_indexer(all_unplaced(s), pos, other, host),
            |v: IndexerModel| unplaced_indexer(v),
        ),
    decreases s, s.len() - pos, 0nat,
{
    let u = all_unplaced(s);
    lemma_all_unplaced(s);
    if identifier_at(s, pos) {
        assert(u[pos] == unplaced(s[pos]));
        let keyword = s[pos]->Ident_0;
        if pos + 1 == s.len() {
        } else {
            assert(u[pos + 1] == unplaced(s[pos + 1]));
            if s[pos + 1].is_punct(':') {
                if keyword.name == "plain"@ {
                    if pos + 2 <= s.len() {
                        lemma_unread_after_unplaced(s, pos + 2, host, 0);
                        match unread_after(s, pos + 2, host, 0) {
                            Some(r) => {
                                if r < s.len() - (pos + 2) {
                                    assert(u.subrange(pos + 2, s.len() - r) =~= all_unplaced(
                                        s.subrange(pos + 2, s.len() - r),
                                    ));
                                }
                            },
                            None => {},
                        }
                    }
                } else if keyword.name == "rev"@ {
                    if 0 <= pos + 2 < s.len() {
                        assert(u[pos + 2] == unplaced(s[pos + 2]));
                    }
                }
            } else {
                match s[pos + 1] {
                    TokenModel::Group { delimiter: Delimiter::Bracket, stream, span } => {
                        lemma_indexers_unplaced(stream, 0, true, span, Span::CallSite, host);
                    },
                    _ => {},
                }
            }
        }
    }
}

/// A list of indexers reads alike whatever the positions.
pub proof fn lemma_indexers_unplaced(
    s: Seq<TokenModel>,
    pos: int,
    first: bool,
    scope: Span,
    other: Span,
    host: spec_fn(Seq<char>) -> bool,
)
    ensures
        alike_whole(
            parse_indexers(s, pos, first, scope, host),
            parse_indexers(all_unplaced(s), pos, first, other, host),
            |v: Seq<IndexerModel>| unplaced_indexers(v),
        ),
    decreases s, s.len() - pos, 1nat,
{
    let u = all_unplaced(s);
    lemma_all_unplaced(s);
    if 0 <= pos < s.len() {
        assert(u[pos] == unplaced(s[pos]));
        if !first && !s[pos].is_punct(',') {
        } else {
            let start = if first {
                pos
            } else {
                pos + 1
            };
            lemma_indexer_unplaced(s, start, scope, other, host);
            match parse_indexer(s, start, scope, host) {
                Ok(p) => {
                    let q = parse_indexer(u, start, other, host)->Ok_0;
                    if start < p.next <= s.len() {
                        lemma_indexers_unplaced(s, p.next, false, scope, other, host);
                        match parse_indexers(s, p.next, false, scope, host) {
                            Ok(rest) => {
                                let plain = parse_indexers(u, p.next, false, other, host)->Ok_0;
                                assert(seq![q.value] + plain =~= unplaced_indexers(
                                    seq![p.value] + rest,
                                ));
                            },
                            Err(_) => {},
                        }
                    } else {
                        assert(seq![q.value] =~= unplaced_indexers(seq![p.value]));
                    }
                },
                Err(_) => {},
            }
        }
    } else {
        assert(Seq::<IndexerModel>::empty() =~= unplaced_indexers(Seq::<IndexerModel>::empty()));
    }
}

/// An alias declaration reads alike whatever the positions.
pub proof fn lemma_alias_unplaced(
    s: Seq<TokenModel>,
    pos: int,
    scope: Span,
    other: Span,
    host: spec_fn(Seq<char>) -> bool,
)
    ensures
        alike(
            parse_alias_declaration(s, pos, scope, host),
            parse_alias_declaration(all_unplaced(s), pos, other, host),
            |v: AliasModel| unplaced_alias(v),
        ),
{
    let u = all_unplaced(s);
    lemma_all_unplaced(s);
    if 0 <= pos < s.len() {
        assert(u[pos] == unplaced(s[pos]));
    }
    if 0 <= pos + 1 < s.len() {
        assert(u[pos + 1] == unplaced(s[pos + 1]));
    }
    if 0 <= pos + 2 < s.len() {
        assert(u[pos + 2] == unplaced(s[pos + 2]));
    }
    lemma_indexer_unplaced(s, pos + 3, scope, other, host);
}

/// Alias declarations read alike whatever the positions.
pub proof fn lemma_aliases_unplaced(
    s: Seq<TokenModel>,
    pos: int,
    scope: Span,
    other: Span,
    host: spec_fn(Seq<char>) -> bool,
)
    ensures
        alike(
            parse_aliases(s, pos, scope, host),
            parse_aliases(all_unplaced(s), pos, other, host),
            |v: Seq<AliasModel>| unplaced_aliases(v),
        ),
    decreases s.len() - pos,
{
    let u = all_unplaced(s);
    lemma_all_unplaced(s);
    if 0 <= pos < s.len() {
        assert(u[pos] == unplaced(s[pos]));
        if s[pos].is_word("let"@) {
            lemma_alias_unplaced(s, pos, scope, other, host);
            match parse_alias_declaration(s, pos, scope, host) {
                Ok(p) => {
                    let q = parse_alias_declaration(u, pos, other, host)->Ok_0;
                    if pos < p.next <= s.len() {
                        lemma_aliases_unplaced(s, p.next, scope, other, host);
                        match parse_aliases(s, p.next, scope, host) {
                            Ok(rest) => {
                                let plain = parse_aliases(u, p.next, other, host)->Ok_0;
                                assert(seq![q.value] + plain.value =~= unplaced_aliases(
                                    seq![p.value] + rest.value,
                                ));
                            },
                            Err(_) => {},
                        }
                    } else {
                        assert(seq![q.value] =~= unplaced_aliases(seq![p.value]));
                    }
                },
                Err(_) => {},
            }
        } else {
            assert(Seq::<AliasModel>::empty() =~= unplaced_aliases(Seq::<AliasModel>::empty()));
        }
    } else {
        assert(Seq::<AliasModel>::empty() =~= unplaced_aliases(Seq::<AliasModel>::empty()));
    }
}

/// A segment reads alike whatever the positions.
pub proof fn lemma_segment_unplaced(
    s: Seq<TokenModel>,
    pos: int,
    scope: Span,
    other: Span,
    host: spec_fn(Seq<char>) -> bool,
)
    ensures
        alike(
            parse_segment(s, pos, scope, host),
            parse_segment(all_unplaced(s), pos, other, host),
            |v: SegmentModel| unplaced_segment(v),
        ),
    decreases s, s.len() - pos, 1nat,
{
    let u = all_unplaced(s);
    lemma_all_unplaced(s);
    if 0 <= pos < s.len() {
        assert(u[pos] == unplaced(s[pos]));
        if pos + 1 < s.len() {
            assert(u[pos + 1] == unplaced(s[pos + 1]));
        }
        if s[pos] is Group && !s[pos].is_group(Delimiter::Bare) {
            lemma_segments_unplaced(
                s[pos]->stream,
                0,
                s[pos]->Group_span,
                Span::CallSite,
                host,
            );
        } else if s[pos].is_word("for"@) {
            lemma_lambda_unplaced(s, pos, scope, other, host);
        } else if identifier_at(s, pos) && pos + 1 < s.len() && s[pos + 1].is_group(
            Delimiter::Bracket,
        ) {
            lemma_indexers_unplaced(
                s[pos + 1]->stream,
                0,
                true,
                s[pos + 1]->Group_span,
                Span::CallSite,
                host,
            );
        }
    }
}

/// A sequence of segments reads alike whatever the positions.
pub proof fn lemma_segments_unplaced(
    s: Seq<TokenModel>,
    pos: int,
    scope: Span,
    other: Span,
    host: spec_fn(Seq<char>) -> bool,
)
    ensures
        alike_whole(
            parse_segments(s, pos, scope, host),
            parse_segments(all_unplaced(s), pos, other, host),
            |v: Seq<SegmentModel>| unplaced_segments(v),
        ),
    decreases s, s.len() - pos, 2nat,
{
    let u = all_unplaced(s);
    lemma_all_unplaced(s);
    if 0 <= pos < s.len() {
        lemma_segment_unplaced(s, pos, scope, other, host);
        match parse_segment(s, pos, scope, host) {
            Ok(p) => {
                let q = parse_segment(u, pos, other, host)->Ok_0;
                if pos < p.next <= s.len() {
                    lemma_segments_unplaced(s, p.next, scope, other, host);
                    match parse_segments(s, p.next, scope, host) {
                        Ok(rest) => {
                            let plain = parse_segments(u, p.next, other, host)->Ok_0;
                            assert(seq![q.value] + plain =~= unplaced_segments(
                                seq![p.value] + rest,
                            ));
                        },
                        Err(_) => {},
                    }
                } else {
                    assert(seq![q.value] =~= unplaced_segments(seq![p.value]));
                }
            },
            Err(_) => {},
        }
    } else {
        assert(Seq::<SegmentModel>::empty() =~= unplaced_segments(Seq::<SegmentModel>::empty()));
    }
}

/// A scope reads alike whatever the positions.
pub proof fn lemma_lambda_unplaced(
    s: Seq<TokenModel>,
    pos: int,
    scope: Span,
    other: Span,
    host: spec_fn(Seq<char>) -> bool,
)
    ensures
        alike_whole(
            parse_lambda(s, pos, scope, host),
            parse_lambda(all_unplaced(s), pos, other, host),
            |v: LambdaModel| unplaced_lambda(v),
        ),
    decreases s, s.len() - pos, 0nat,
{
    let u = all_unplaced(s);
    lemma_all_unplaced(s);
    lemma_index_declaration_unplaced(s, pos, scope, other);
    match parse_index_declaration(s, pos, scope) {
        Ok(declaration) => {
            lemma_aliases_unplaced(s, declaration.next, scope, other, host);
            match parse_aliases(s, declaration.next, scope, host) {
                Ok(aliases) => {
                    if arrow_at(s, aliases.next) && pos < aliases.next + 2 <= s.len() {
                        lemma_segments_unplaced(s, aliases.next + 2, scope, other, host);
                    }
                },
                Err(_) => {},
            }
        },
        Err(_) => {},
    }
}

/// The text of an expression does not depend on where its tokens stood:
/// two sequences of tokens that differ in nothing but the positions of
/// their tokens are both refused, or else read as trees that are written as
/// the same text, given the same answers of the parser of the host
/// language.
pub proof fn lemma_text_ignores_positions(
    first: Seq<TokenModel>,
    second: Seq<TokenModel>,
    scope: Span,
    other: Span,
    host: spec_fn(Seq<char>) -> bool,
)
    requires
        all_unplaced(first) == all_unplaced(second),
    ensures
        match parse_group(first, scope, host) {
            Ok(a) => parse_group(second, other, host) matches Ok(b) && group_text(a)
                == group_text(b),
            Err(_) => parse_group(second, other, host) is Err,
        },
{
    let u = all_unplaced(first);
    lemma_segments_unplaced(first, 0, scope, Span::CallSite, host);
    lemma_segments_unplaced(second, 0, other, Span::CallSite, host);
    match parse_segments(first, 0, scope, host) {
        Ok(a) => {
            let b = parse_segments(second, 0, other, host)->Ok_0;
            lemma_segments_text_unplaced(a);
            lemma_segments_text_unplaced(b);
        },
        Err(_) => {},
    }
}

} // verus!
