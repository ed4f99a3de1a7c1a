//! The tree holds the expression whole: written back as tokens, a tree gives
//! the tokens that it was read from, but for their positions and for the
//! gluing of their punctuation, which the tree does not keep.
use crate::model::header::{
    identifier_at, identifier_run, identifiers, parse_alias_declaration, parse_index_declaration,
    parse_indexer, parse_indexers, AliasModel, IndexerModel,
};
use crate::model::lambda::{
    parse_aliases, parse_group, parse_lambda, parse_segment, parse_segments, LambdaModel,
    SegmentModel,
};
use crate::token::{Delimiter, IdentModel, Punct, Spacing, Span, TokenModel};
use vstd::prelude::*;

verus! {

/// The identifier `name`, standing nowhere.
pub open spec fn bare_word(name: Seq<char>) -> TokenModel {
    TokenModel::Ident(IdentModel { name, span: Span::CallSite })
}

/// The punctuation character `ch`, standing alone and nowhere.
pub open spec fn bare_mark(ch: char) -> TokenModel {
    TokenModel::Punct(Punct { ch, spacing: Spacing::Alone, span: Span::CallSite })
}

/// The token without its position and without the gluing of its
/// punctuation, all the way down.
pub open spec fn shape(t: TokenModel) -> TokenModel
    decreases t,
{
    match t {
        TokenModel::Group { delimiter, stream, .. } => TokenModel::Group {
            delimiter,
            stream: shapes(stream),
            span: Span::CallSite,
        },
        TokenModel::Ident(i) => bare_word(i.name),
        TokenModel::Punct(p) => bare_mark(p.ch),
        TokenModel::Literal { text, .. } => TokenModel::Literal { text, span: Span::CallSite },
    }
}

/// The tokens without their positions and without the gluing of their
/// punctuation.
pub open spec fn shapes(s: Seq<TokenModel>) -> Seq<TokenModel>
    decreases s,
{
    Seq::new(
        s.len(),
        |i: int|
            if 0 <= i < s.len() {
                shape(s[i])
            } else {
                arbitrary()
            },
    )
}

/// The tokens of an indexer.
pub open spec fn indexer_tokens(x: IndexerModel) -> Seq<TokenModel>
    decreases x,
{
    match x {
        IndexerModel::Direct { index } => seq![TokenModel::Ident(index)],
        IndexerModel::Reindexing { reindexing_name, indexers } => seq![
            TokenModel::Ident(reindexing_name),
            TokenModel::Group {
                delimiter: Delimiter::Bracket,
                stream: indexers_tokens(indexers, true),
                span: Span::CallSite,
            },
        ],
        IndexerModel::Reverse { index } => seq![
            bare_word("rev"@),
            bare_mark(':'),
            TokenModel::Ident(index),
        ],
        IndexerModel::Plain { expr } => seq![bare_word("plain"@), bare_mark(':')] + expr,
    }
}

/// The tokens of a list of indexers, with a comma before each but the
/// first; `first` tells that the list starts with the first.
pub open spec fn indexers_tokens(s: Seq<IndexerModel>, first: bool) -> Seq<TokenModel>
    decreases s,
{
    if s.len() == 0 {
        Seq::empty()
    } else {
        (if first {
            Seq::empty()
        } else {
            seq![bare_mark(',')]
        }) + indexer_tokens(s[0]) + indexers_tokens(s.drop_first(), false)
    }
}

/// The identifiers `s` as tokens.
pub open spec fn names_tokens(s: Seq<IdentModel>) -> Seq<TokenModel> {
    Seq::new(s.len(), |i: int| TokenModel::Ident(s[i]))
}

/// The tokens of an alias declaration.
pub open spec fn alias_tokens(a: AliasModel) -> Seq<TokenModel> {
    seq![bare_word("let"@), TokenModel::Ident(a.index), bare_mark('=')] + indexer_tokens(
        a.indexer,
    )
}

/// The tokens of a list of alias declarations.
pub open spec fn aliases_tokens(s: Seq<AliasModel>) -> Seq<TokenModel>
    decreases s.len(),
{
    if s.len() == 0 {
        Seq::empty()
    } else {
        alias_tokens(s[0]) + aliases_tokens(s.drop_first())
    }
}

/// The tokens of a segment.
pub open spec fn segment_tokens(x: SegmentModel) -> Seq<TokenModel>
    decreases x,
{
    match x {
        SegmentModel::TensorCall { tensor_name, indexers } => seq![
            TokenModel::Ident(tensor_name),
            TokenModel::Group {
                delimiter: Delimiter::Bracket,
                stream: indexers_tokens(indexers, true),
                span: Span::CallSite,
            },
        ],
        SegmentModel::SubLambda(lambda) => lambda_tokens(lambda),
        SegmentModel::SubGroup { delimiter, group } => seq![
            TokenModel::Group {
                delimiter,
                stream: segments_tokens(group.segments),
                span: Span::CallSite,
            },
        ],
        SegmentModel::Token(token) => seq![token],
    }
}

/// The tokens of a sequence of segments.
pub open spec fn segments_tokens(s: Seq<SegmentModel>) -> Seq<TokenModel>
    decreases s,
{
    if s.len() == 0 {
        Seq::empty()
    } else {
        segment_tokens(s[0]) + segments_tokens(s.drop_first())
    }
}

/// The tokens of a scope.
pub open spec fn lambda_tokens(l: LambdaModel) -> Seq<TokenModel>
    decreases l,
{
    seq![bare_word("for"@)] + names_tokens(l.index_declaration) + aliases_tokens(
        l.alias_declarations,
    ) + seq![bare_mark('='), bare_mark('>')] + segments_tokens(l.body.segments)
}

/// The shapes of two sequences of tokens, one after the other.
pub proof fn lemma_shapes_concat(a: Seq<TokenModel>, b: Seq<TokenModel>)
    ensures
        shapes(a + b) == shapes(a) + shapes(b),
{
    assert(shapes(a + b) =~= shapes(a) + shapes(b));
}

/// The shapes of the parts of a sequence of tokens that is cut in two.
pub proof fn lemma_shapes_split(s: Seq<TokenModel>, from: int, middle: int, to: int)
    requires
        0 <= from <= middle <= to <= s.len(),
    ensures
        shapes(s.subrange(from, to)) == shapes(s.subrange(from, middle)) + shapes(
            s.subrange(middle, to),
        ),
{
    assert(s.subrange(from, to) =~= s.subrange(from, middle) + s.subrange(middle, to));
    lemma_shapes_concat(s.subrange(from, middle), s.subrange(middle, to));
}

/// A run of identifiers holds nothing but identifiers.
pub proof fn lemma_identifier_run(s: Seq<TokenModel>, from: int)
    requires
        0 <= from <= s.len(),
    ensures
        from <= identifier_run(s, from) <= s.len(),
        forall|k: int| from <= k < identifier_run(s, from) ==> identifier_at(s, k),
    decreases s.len() - from,
{
    if identifier_at(s, from) {
        lemma_identifier_run(s, from + 1);
    }
}

/// The header of a scope, written back, gives the tokens it was read from.
pub proof fn lemma_index_declaration_is_faithful(s: Seq<TokenModel>, pos: int, scope: Span)
    requires
        parse_index_declaration(s, pos, scope) is Ok,
    ensures
        ({
            let p = parse_index_declaration(s, pos, scope)->Ok_0;
            &&& 0 <= pos < p.next <= s.len()
            &&& shapes(seq![bare_word("for"@)] + names_tokens(p.value)) == shapes(
                s.subrange(pos, p.next),
            )
        }),
{
    let p = parse_index_declaration(s, pos, scope)->Ok_0;
    lemma_identifier_run(s, pos + 1);
    let written = seq![bare_word("for"@)] + names_tokens(p.value);
    let read = s.subrange(pos, p.next);
    assert(written.len() == read.len());
    assert forall|i: int| 0 <= i < written.len() implies shape(written[i]) == shape(read[i]) by {
        if i > 0 {
            assert(identifier_at(s, pos + i));
            assert(p.value[i - 1] == s[pos + i]->Ident_0);
        }
    }
    assert(shapes(written) =~= shapes(read));
}

/// An indexer, written back, gives the tokens it was read from.
pub proof fn lemma_indexer_is_faithful(s: Seq<TokenModel>, pos: int, scope: Span, host: spec_fn(Seq<char>) -> bool)
    requires
        parse_indexer(s, pos, scope, host) is Ok,
    ensures
        ({
            let p = parse_indexer(s, pos, scope, host)->Ok_0;
            &&& 0 <= pos < p.next <= s.len()
            &&& shapes(indexer_tokens(p.value)) == shapes(s.subrange(pos, p.next))
        }),
    decreases s, s.len() - pos, 0nat,
{
    let p = parse_indexer(s, pos, scope, host)->Ok_0;
    let keyword = s[pos]->Ident_0;
    let written = indexer_tokens(p.value);
    let read = s.subrange(pos, p.next);
    if pos + 1 == s.len() {
        assert(shapes(written) =~= shapes(read));
    } else if s[pos + 1].is_punct(':') {
        if keyword.name == "plain"@ {
            let head = seq![bare_word("plain"@), bare_mark(':')];
            let expr = p.value->expr;
            assert(read =~= s.subrange(pos, pos + 2) + expr);
            lemma_shapes_concat(head, expr);
            lemma_shapes_concat(s.subrange(pos, pos + 2), expr);
            assert(shapes(head) =~= shapes(s.subrange(pos, pos + 2)));
        } else {
            assert(keyword.name == "rev"@);
            assert(shapes(written) =~= shapes(read));
        }
    } else {
        match s[pos + 1] {
            TokenModel::Group { delimiter: Delimiter::Bracket, stream, span } => {
                lemma_indexers_are_faithful(stream, 0, true, span, host);
                assert(stream.subrange(0, stream.len() as int) =~= stream);
                assert(shapes(written) =~= shapes(read));
            },
            _ => {
                assert(shapes(written) =~= shapes(read));
            },
        }
    }
}

/// A list of indexers, written back, gives the tokens it was read from.
pub proof fn lemma_indexers_are_faithful(s: Seq<TokenModel>, pos: int, first: bool, scope: Span, host: spec_fn(Seq<char>) -> bool)
    requires
        0 <= pos <= s.len(),
        parse_indexers(s, pos, first, scope, host) is Ok,
    ensures
        shapes(indexers_tokens(parse_indexers(s, pos, first, scope, host)->Ok_0, first)) == shapes(
            s.subrange(pos, s.len() as int),
        ),
    decreases s, s.len() - pos, 1nat,
{
    let list = parse_indexers(s, pos, first, scope, host)->Ok_0;
    if pos < s.len() {
        let start = if first {
            pos
        } else {
            pos + 1
        };
        lemma_indexer_is_faithful(s, start, scope, host);
        let p = parse_indexer(s, start, scope, host)->Ok_0;
        lemma_indexers_are_faithful(s, p.next, false, scope, host);
        let rest = parse_indexers(s, p.next, false, scope, host)->Ok_0;
        assert(list[0] == p.value);
        assert(list.drop_first() =~= rest);
        let comma = if first {
            Seq::<TokenModel>::empty()
        } else {
            seq![bare_mark(',')]
        };
        lemma_shapes_concat(comma + indexer_tokens(p.value), indexers_tokens(rest, false));
        lemma_shapes_concat(comma, indexer_tokens(p.value));
        lemma_shapes_split(s, pos, p.next, s.len() as int);
        lemma_shapes_split(s, pos, start, p.next);
        assert(shapes(comma) =~= shapes(s.subrange(pos, start)));
    } else {
        assert(shapes(indexers_tokens(list, first)) =~= shapes(s.subrange(pos, s.len() as int)));
    }
}

/// An alias declaration, written back, gives the tokens it was read from.
pub proof fn lemma_alias_is_faithful(s: Seq<TokenModel>, pos: int, scope: Span, host: spec_fn(Seq<char>) -> bool)
    requires
        parse_alias_declaration(s, pos, scope, host) is Ok,
    ensures
        ({
            let p = parse_alias_declaration(s, pos, scope, host)->Ok_0;
            &&& 0 <= pos < p.next <= s.len()
            &&& shapes(alias_tokens(p.value)) == shapes(s.subrange(pos, p.next))
        }),
{
    let p = parse_alias_declaration(s, pos, scope, host)->Ok_0;
    lemma_indexer_is_faithful(s, pos + 3, scope, host);
    let head = seq![bare_word("let"@), TokenModel::Ident(p.value.index), bare_mark('=')];
    lemma_shapes_concat(head, indexer_tokens(p.value.indexer));
    lemma_shapes_split(s, pos, pos + 3, p.next);
    assert(shapes(head) =~= shapes(s.subrange(pos, pos + 3)));
}

/// A list of alias declarations, written back, gives the tokens it was read
/// from.
pub proof fn lemma_aliases_are_faithful(s: Seq<TokenModel>, pos: int, scope: Span, host: spec_fn(Seq<char>) -> bool)
    requires
        0 <= pos <= s.len(),
        parse_aliases(s, pos, scope, host) is Ok,
    ensures
        ({
            let p = parse_aliases(s, pos, scope, host)->Ok_0;
            &&& pos <= p.next <= s.len()
            &&& shapes(aliases_tokens(p.value)) == shapes(s.subrange(pos, p.next))
        }),
    decreases s.len() - pos,
{
    let p = parse_aliases(s, pos, scope, host)->Ok_0;
    if pos < s.len() && s[pos].is_word("let"@) {
        lemma_alias_is_faithful(s, pos, scope, host);
        let a = parse_alias_declaration(s, pos, scope, host)->Ok_0;
        lemma_aliases_are_faithful(s, a.next, scope, host);
        let rest = parse_aliases(s, a.next, scope, host)->Ok_0;
        assert(p.value[0] == a.value);
        assert(p.value.drop_first() =~= rest.value);
        lemma_shapes_concat(alias_tokens(a.value), aliases_tokens(rest.value));
        lemma_shapes_split(s, pos, a.next, p.next);
    } else {
        assert(shapes(aliases_tokens(p.value)) =~= shapes(s.subrange(pos, p.next)));
    }
}

/// A segment, written back, gives the tokens it was read from.
pub proof fn lemma_segment_is_faithful(s: Seq<TokenModel>, pos: int, scope: Span, host: spec_fn(Seq<char>) -> bool)
    requires
        parse_segment(s, pos, scope, host) is Ok,
    ensures
        ({
            let p = parse_segment(s, pos, scope, host)->Ok_0;
            &&& 0 <= pos < p.next <= s.len()
            &&& shapes(segment_tokens(p.value)) == shapes(s.subrange(pos, p.next))
        }),
    decreases s, s.len() - pos, 1nat,
{
    let p = parse_segment(s, pos, scope, host)->Ok_0;
    let written = segment_tokens(p.value);
    let read = s.subrange(pos, p.next);
    if s[pos] is Group && !s[pos].is_group(Delimiter::Bare) {
        let stream = s[pos]->stream;
        lemma_segments_are_faithful(stream, 0, s[pos]->Group_span, host);
        assert(stream.subrange(0, stream.len() as int) =~= stream);
        assert(shapes(written) =~= shapes(read));
    } else if s[pos].is_word("for"@) {
        lemma_lambda_is_faithful(s, pos, scope, host);
    } else if identifier_at(s, pos) && pos + 1 < s.len() && s[pos + 1].is_group(
        Delimiter::Bracket,
    ) {
        let stream = s[pos + 1]->stream;
        lemma_indexers_are_faithful(stream, 0, true, s[pos + 1]->Group_span, host);
        assert(stream.subrange(0, stream.len() as int) =~= stream);
        assert(shapes(written) =~= shapes(read));
    } else {
        assert(shapes(written) =~= shapes(read));
    }
}

/// A sequence of segments, written back, gives the tokens it was read from.
pub proof fn lemma_segments_are_faithful(s: Seq<TokenModel>, pos: int, scope: Span, host: spec_fn(Seq<char>) -> bool)
    requires
        0 <= pos <= s.len(),
        parse_segments(s, pos, scope, host) is Ok,
    ensures
        shapes(segments_tokens(parse_segments(s, pos, scope, host)->Ok_0)) == shapes(
            s.subrange(pos, s.len() as int),
        ),
    decreases s, s.len() - pos, 2nat,
{
    let list = parse_segments(s, pos, scope, host)->Ok_0;
    if pos < s.len() {
        lemma_segment_is_faithful(s, pos, scope, host);
        let p = parse_segment(s, pos, scope, host)->Ok_0;
        lemma_segments_are_faithful(s, p.next, scope, host);
        let rest = parse_segments(s, p.next, scope, host)->Ok_0;
        assert(list[0] == p.value);
        assert(list.drop_first() =~= rest);
        lemma_shapes_concat(segment_tokens(p.value), segments_tokens(rest));
        lemma_shapes_split(s, pos, p.next, s.len() as int);
    } else {
        assert(shapes(segments_tokens(list)) =~= shapes(s.subrange(pos, s.len() as int)));
    }
}

/// A scope, written back, gives the tokens it was read from.
pub proof fn lemma_lambda_is_faithful(s: Seq<TokenModel>, pos: int, scope: Span, host: spec_fn(Seq<char>) -> bool)
    requires
        parse_lambda(s, pos, scope, host) is Ok,
    ensures
        0 <= pos < s.len(),
        shapes(lambda_tokens(parse_lambda(s, pos, scope, host)->Ok_0)) == shapes(
            s.subrange(pos, s.len() as int),
        ),
    decreases s, s.len() - pos, 0nat,
{
    let lambda = parse_lambda(s, pos, scope, host)->Ok_0;
    lemma_index_declaration_is_faithful(s, pos, scope);
    let declaration = parse_index_declaration(s, pos, scope)->Ok_0;
    lemma_aliases_are_faithful(s, declaration.next, scope, host);
    let aliases = parse_aliases(s, declaration.next, scope, host)->Ok_0;
    let body_start = aliases.next + 2;
    lemma_segments_are_faithful(s, body_start, scope, host);
    let header = seq![bare_word("for"@)] + names_tokens(lambda.index_declaration);
    let arrow = seq![bare_mark('='), bare_mark('>')];
    let end = s.len() as int;
    lemma_shapes_concat(
        header + aliases_tokens(lambda.alias_declarations) + arrow,
        segments_tokens(lambda.body.segments),
    );
    lemma_shapes_concat(header + aliases_tokens(lambda.alias_declarations), arrow);
    lemma_shapes_concat(header, aliases_tokens(lambda.alias_declarations));
    lemma_shapes_split(s, pos, body_start, end);
    lemma_shapes_split(s, pos, aliases.next, body_start);
    lemma_shapes_split(s, pos, declaration.next, aliases.next);
    assert(shapes(arrow) =~= shapes(s.subrange(aliases.next, body_start)));
}

/// The tree holds the expression whole: the tokens of the tree that an
/// expression is read as are the tokens of the expression, but for their
/// positions and for the gluing of their punctuation.
pub proof fn lemma_reading_is_faithful(s: Seq<TokenModel>, scope: Span, host: spec_fn(Seq<char>) -> bool)
    requires
        parse_group(s, scope, host) is Ok,
    ensures
        shapes(segments_tokens(parse_group(s, scope, host)->Ok_0.segments)) == shapes(s),
{
    lemma_segments_are_faithful(s, 0, scope, host);
    assert(s.subrange(0, s.len() as int) =~= s);
}

} // verus!
