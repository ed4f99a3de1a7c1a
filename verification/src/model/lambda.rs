//! What stands in the body of a scope: plain tokens, array accesses, groups
//! in delimiters, and scopes nested within. A reserved word that would make
//! a statement of the expression is refused, and so is a `;`.
use crate::error::{named_fault, plain_fault, ErrorKind, ErrorModel, ParseError};
use crate::model::header::{
    agrees, alias_text, fault_at, host_of, identifier_at, index_declaration_text,
    indexers_model, indexers_text, kept, lemma_host_of_agrees, missing, parse_alias_declaration,
    parse_index_declaration, parse_indexer_list, parse_indexers, peek_identifier, peek_punct,
    peek_word, write_indexers, AliasModel, HostAnswers, IndexerModel, Parsed,
    RicciAliasDeclaration, RicciIndexDeclaration, RicciIndexer,
};
use crate::text::{token_text, write_token};
use crate::token::{
    lemma_stream_model_index, stream_model, Delimiter, Ident, IdentModel, Spacing, Span,
    TokenModel, TokenTree,
};
use vstd::prelude::*;

verus! {

/// One piece of the body of a scope.
#[derive(Debug, PartialEq, Eq)]
pub enum RicciSegment {
    /// An access to the array `tensor_name`, one indexer for each position.
    TensorCall { tensor_name: Ident, indexers: Vec<RicciIndexer> },
    /// A scope nested within.
    SubLambda(Box<RicciLambda>),
    /// A group of segments inside a delimiter.
    SubGroup { delimiter: Delimiter, group: Box<RicciGroup> },
    /// Any other token, passed through as it is.
    Token(TokenTree),
}

/// A sequence of segments.
#[derive(Debug, PartialEq, Eq)]
pub struct RicciGroup {
    pub segments: Vec<RicciSegment>,
}

/// A scope: the indexes it declares, the aliases it names, and its body.
#[derive(Debug, PartialEq, Eq)]
pub struct RicciLambda {
    pub index_declaration: RicciIndexDeclaration,
    pub alias_declarations: Vec<RicciAliasDeclaration>,
    pub _filter: Option<Vec<TokenTree>>,
    pub body: RicciGroup,
}

/// What a segment is.
pub ghost enum SegmentModel {
    TensorCall { tensor_name: IdentModel, indexers: Seq<IndexerModel> },
    SubLambda(LambdaModel),
    SubGroup { delimiter: Delimiter, group: GroupModel },
    Token(TokenModel),
}

/// What a group is.
pub ghost struct GroupModel {
    pub segments: Seq<SegmentModel>,
}

/// What a scope is.
pub ghost struct LambdaModel {
    pub index_declaration: Seq<IdentModel>,
    pub alias_declarations: Seq<AliasModel>,
    pub filter: Option<Seq<TokenModel>>,
    pub body: GroupModel,
}

/// The model of one segment.
pub open spec fn segment_model(x: RicciSegment) -> SegmentModel
    decreases x,
{
    match x {
        RicciSegment::TensorCall { tensor_name, indexers } => SegmentModel::TensorCall {
            tensor_name: tensor_name@,
            indexers: indexers_model(indexers@),
        },
        RicciSegment::SubLambda(lambda) => SegmentModel::SubLambda(lambda_model(*lambda)),
        RicciSegment::SubGroup { delimiter, group } => SegmentModel::SubGroup {
            delimiter,
            group: group_model(*group),
        },
        RicciSegment::Token(token) => SegmentModel::Token(token@),
    }
}

/// The models of a sequence of segments, in order.
pub open spec fn segments_model(s: Seq<RicciSegment>) -> Seq<SegmentModel>
    decreases s,
{
    Seq::new(
        s.len(),
        |i: int|
            if 0 <= i < s.len() {
                segment_model(s[i])
            } else {
                arbitrary()
            },
    )
}

/// The model of a group.
pub open spec fn group_model(g: RicciGroup) -> GroupModel
    decreases g,
{
    GroupModel { segments: segments_model(g.segments@) }
}

/// The models of a list of alias declarations, in order.
pub open spec fn aliases_model(s: Seq<RicciAliasDeclaration>) -> Seq<AliasModel> {
    Seq::new(s.len(), |i: int| s[i]@)
}

/// The model of a scope.
pub open spec fn lambda_model(l: RicciLambda) -> LambdaModel
    decreases l,
{
    LambdaModel {
        index_declaration: l.index_declaration@,
        alias_declarations: aliases_model(l.alias_declarations@),
        filter: match l._filter {
            Some(tokens) => Some(stream_model(tokens@)),
            None => None,
        },
        body: group_model(l.body),
    }
}

impl View for RicciSegment {
    type V = SegmentModel;

    open spec fn view(&self) -> SegmentModel {
        segment_model(*self)
    }
}

impl View for RicciGroup {
    type V = GroupModel;

    open spec fn view(&self) -> GroupModel {
        group_model(*self)
    }
}

impl View for RicciLambda {
    type V = LambdaModel;

    open spec fn view(&self) -> LambdaModel {
        lambda_model(*self)
    }
}

/// Whether `name` is a word of the host language that would turn the
/// expression into a statement, and is therefore refused.
pub open spec fn is_illegal_keyword(name: Seq<char>) -> bool {
    ||| name == "let"@
    ||| name == "while"@
    ||| name == "loop"@
    ||| name == "break"@
    ||| name == "continue"@
    ||| name == "return"@
    ||| name == "fn"@
    ||| name == "struct"@
    ||| name == "enum"@
    ||| name == "type"@
    ||| name == "trait"@
    ||| name == "mod"@
    ||| name == "use"@
    ||| name == "extern"@
}

/// Whether the two characters of `=>` stand at `pos`.
pub open spec fn arrow_at(s: Seq<TokenModel>, pos: int) -> bool {
    &&& 0 <= pos
    &&& pos + 1 < s.len()
    &&& s[pos].is_punct('=')
    &&& s[pos].is_joint()
    &&& s[pos + 1].is_punct('>')
}

/// The alias declarations read from `pos` on, as long as the word `let`
/// opens one.
pub open spec fn parse_aliases(s: Seq<TokenModel>, pos: int, scope: Span, host: spec_fn(Seq<char>) -> bool) -> Result<
    Parsed<Seq<AliasModel>>,
    ErrorModel,
>
    decreases s.len() - pos,
{
    if 0 <= pos < s.len() && s[pos].is_word("let"@) {
        match parse_alias_declaration(s, pos, scope, host) {
            Err(e) => Err(e),
            Ok(p) => if pos < p.next <= s.len() {
                match parse_aliases(s, p.next, scope, host) {
                    Ok(rest) => Ok(Parsed { value: seq![p.value] + rest.value, next: rest.next }),
                    Err(e) => Err(e),
                }
            } else {
                Ok(Parsed { value: seq![p.value], next: p.next })
            },
        }
    } else {
        Ok(Parsed { value: Seq::empty(), next: pos })
    }
}

/// The segment read at `pos`.
pub open spec fn parse_segment(s: Seq<TokenModel>, pos: int, scope: Span, host: spec_fn(Seq<char>) -> bool) -> Result<
    Parsed<SegmentModel>,
    ErrorModel,
>
    decreases s, s.len() - pos, 1nat,
{
    if !(0 <= pos < s.len()) {
        Err(missing(ErrorKind::ExpectedToken, s, pos, scope))
    } else if s[pos] is Group && !s[pos].is_group(Delimiter::Bare) {
        match parse_segments(s[pos]->stream, 0, s[pos]->Group_span, host) {
            Ok(segments) => Ok(
                Parsed {
                    value: SegmentModel::SubGroup {
                        delimiter: s[pos]->delimiter,
                        group: GroupModel { segments },
                    },
                    next: pos + 1,
                },
            ),
            Err(e) => Err(e),
        }
    } else if s[pos].is_word("for"@) {
        match parse_lambda(s, pos, scope, host) {
            Ok(lambda) => Ok(Parsed { value: SegmentModel::SubLambda(lambda), next: s.len() as int }),
            Err(e) => Err(e),
        }
    } else if identifier_at(s, pos) && pos + 1 < s.len() && s[pos + 1].is_group(
        Delimiter::Bracket,
    ) {
        match parse_indexers(s[pos + 1]->stream, 0, true, s[pos + 1]->Group_span, host) {
            Ok(indexers) => Ok(
                Parsed {
                    value: SegmentModel::TensorCall { tensor_name: s[pos]->Ident_0, indexers },
                    next: pos + 2,
                },
            ),
            Err(e) => Err(e),
        }
    } else if s[pos] matches TokenModel::Ident(i) && is_illegal_keyword(i.name) {
        Err(named_fault(ErrorKind::IllegalKeyword, s[pos].span(), s[pos]->Ident_0.name))
    } else if s[pos].is_punct(';') {
        Err(plain_fault(ErrorKind::ForbiddenSemicolon, s[pos].span()))
    } else {
        Ok(Parsed { value: SegmentModel::Token(s[pos]), next: pos + 1 })
    }
}

/// The segments read from `pos` to the end of `s`.
pub open spec fn parse_segments(s: Seq<TokenModel>, pos: int, scope: Span, host: spec_fn(Seq<char>) -> bool) -> Result<
    Seq<SegmentModel>,
    ErrorModel,
>
    decreases s, s.len() - pos, 2nat,
{
    if !(0 <= pos < s.len()) {
        Ok(Seq::empty())
    } else {
        match parse_segment(s, pos, scope, host) {
            Err(e) => Err(e),
            Ok(p) => if pos < p.next <= s.len() {
                match parse_segments(s, p.next, scope, host) {
                    Ok(rest) => Ok(seq![p.value] + rest),
                    Err(e) => Err(e),
                }
            } else {
                Ok(seq![p.value])
            },
        }
    }
}

/// The scope read at `pos`: its header, its alias declarations, `=>`, and
/// as its body every token up to the end of `s`.
pub open spec fn parse_lambda(s: Seq<TokenModel>, pos: int, scope: Span, host: spec_fn(Seq<char>) -> bool) -> Result<
    LambdaModel,
    ErrorModel,
>
    decreases s, s.len() - pos, 0nat,
{
    match parse_index_declaration(s, pos, scope) {
        Err(e) => Err(e),
        Ok(declaration) => match parse_aliases(s, declaration.next, scope, host) {
            Err(e) => Err(e),
            Ok(aliases) => if !arrow_at(s, aliases.next) {
                Err(missing(ErrorKind::ExpectedArrow, s, aliases.next, scope))
            } else if pos < aliases.next + 2 <= s.len() {
                match parse_segments(s, aliases.next + 2, scope, host) {
                    Ok(segments) => Ok(
                        LambdaModel {
                            index_declaration: declaration.value,
                            alias_declarations: aliases.value,
                            filter: None,
                            body: GroupModel { segments },
                        },
                    ),
                    Err(e) => Err(e),
                }
            } else {
                Err(missing(ErrorKind::ExpectedArrow, s, aliases.next, scope))
            },
        },
    }
}

/// The group that the whole of `s` holds.
pub open spec fn parse_group(s: Seq<TokenModel>, scope: Span, host: spec_fn(Seq<char>) -> bool) -> Result<GroupModel, ErrorModel> {
    match parse_segments(s, 0, scope, host) {
        Ok(segments) => Ok(GroupModel { segments }),
        Err(e) => Err(e),
    }
}

/// Whether `name` is spelled `word`.
fn spelled(name: &String, word: &str) -> (b: bool)
    ensures
        b == (name@ == word@),
{
    *name == String::from_str(word)
}

/// Whether `name` is a word that is refused in an expression.
pub fn illegal_keyword(name: &String) -> (b: bool)
    ensures
        b == is_illegal_keyword(name@),
{
    spelled(name, "let")
        || spelled(name, "while")
        || spelled(name, "loop")
        || spelled(name, "break")
        || spelled(name, "continue")
        || spelled(name, "return")
        || spelled(name, "fn")
        || spelled(name, "struct")
        || spelled(name, "enum")
        || spelled(name, "type")
        || spelled(name, "trait")
        || spelled(name, "mod")
        || spelled(name, "use")
        || spelled(name, "extern")
}

/// Whether the two characters of `=>` stand at `pos`.
pub fn peek_arrow(tokens: &Vec<TokenTree>, pos: usize) -> (b: bool)
    ensures
        b == arrow_at(stream_model(tokens@), pos as int),
{
    proof {
        lemma_stream_model_index(tokens@);
    }
    if pos < tokens.len() && pos + 1 < tokens.len() {
        let glued = match &tokens[pos] {
            TokenTree::Punct(p) => p.ch == '=' && matches!(p.spacing, Spacing::Joint),
            _ => false,
        };
        glued && peek_punct(tokens, pos + 1, '>')
    } else {
        false
    }
}

/// Whether the executable outcome `r` is the outcome `want` of reading
/// alias declarations.
pub open spec fn aliases_outcome(
    r: Result<(Vec<RicciAliasDeclaration>, usize), ParseError>,
    want: Result<Parsed<Seq<AliasModel>>, ErrorModel>,
) -> bool {
    match want {
        Ok(p) => r matches Ok(got) && aliases_model(got.0@) == p.value && got.1 == p.next,
        Err(e) => r matches Err(got) && got@ == e,
    }
}

/// Whether reading the alias declarations from `pos` on comes to reading
/// those from `next` on behind the declarations `read`.
pub open spec fn aliases_so_far(
    s: Seq<TokenModel>,
    pos: int,
    next: int,
    scope: Span,
    host: spec_fn(Seq<char>) -> bool,
    read: Seq<AliasModel>,
) -> bool {
    match parse_aliases(s, next, scope, host) {
        Ok(rest) => parse_aliases(s, pos, scope, host) == Ok::<Parsed<Seq<AliasModel>>, ErrorModel>(
            Parsed { value: read + rest.value, next: rest.next },
        ),
        Err(e) => parse_aliases(s, pos, scope, host) == Err::<
            Parsed<Seq<AliasModel>>,
            ErrorModel,
        >(e),
    }
}

/// Reads the alias declarations that stand from `pos` on.
pub fn parse_alias_declarations(
    tokens: &Vec<TokenTree>,
    pos: usize,
    scope: Span,
    asked: &mut HostAnswers,
) -> (r: Result<(Vec<RicciAliasDeclaration>, usize), ParseError>)
    requires
        pos <= tokens.len(),
    ensures
        kept(old(asked)@, final(asked)@),
        forall|host: spec_fn(Seq<char>) -> bool| #[trigger]
            agrees(host, final(asked)@) ==> agrees(host, old(asked)@) && aliases_outcome(
                r,
                parse_aliases(stream_model(tokens@), pos as int, scope, host),
            ),
        r matches Ok(got) ==> pos <= got.1 <= tokens.len(),
{
    let ghost s = stream_model(tokens@);
    proof {
        lemma_stream_model_index(tokens@);
    }
    let mut aliases: Vec<RicciAliasDeclaration> = Vec::new();
    let mut next: usize = pos;
    assert(aliases_model(aliases@) =~= Seq::<AliasModel>::empty());
    assert forall|host: spec_fn(Seq<char>) -> bool| #[trigger] agrees(host, asked@) implies aliases_so_far(
        s,
        pos as int,
        pos as int,
        scope,
        host,
        aliases_model(aliases@),
    ) by {
        match parse_aliases(s, pos as int, scope, host) {
            Ok(rest) => {
                assert(aliases_model(aliases@) + rest.value =~= rest.value);
            },
            Err(_) => {},
        }
    }
    while peek_word(tokens, next, "let")
        invariant
            pos <= next <= tokens.len(),
            s == stream_model(tokens@),
            s.len() == tokens.len(),
            kept(old(asked)@, asked@),
            forall|host: spec_fn(Seq<char>) -> bool| #[trigger]
                agrees(host, asked@) ==> agrees(host, old(asked)@) && aliases_so_far(
                    s,
                    pos as int,
                    next as int,
                    scope,
                    host,
                    aliases_model(aliases@),
                ),
        decreases tokens.len() - next,
    {
        let ghost before = aliases_model(aliases@);
        let ghost asked_before = asked@;
        let ghost was_at = next;
        match RicciAliasDeclaration::parse(tokens, next, scope, asked) {
            Err(e) => {
                return Err(e);
            },
            Ok((alias, after)) => {
                aliases.push(alias);
                proof {
                    assert(aliases_model(aliases@) =~= before + seq![alias@]);
                    assert forall|host: spec_fn(Seq<char>) -> bool| #[trigger] agrees(host, asked@) implies agrees(
                        host,
                        old(asked)@,
                    ) && aliases_so_far(
                        s,
                        pos as int,
                        after as int,
                        scope,
                        host,
                        aliases_model(aliases@),
                    ) by {
                        assert(agrees(host, asked_before));
                        assert(aliases_so_far(s, pos as int, was_at as int, scope, host, before));
                        match parse_aliases(s, after as int, scope, host) {
                            Ok(rest) => {
                                assert(before + (seq![alias@] + rest.value) =~= aliases_model(
                                    aliases@,
                                ) + rest.value);
                            },
                            Err(_) => {},
                        }
                    }
                }
                next = after;
            },
        }
    }
    proof {
        assert(aliases_model(aliases@) + Seq::<AliasModel>::empty() =~= aliases_model(aliases@));
    }
    Ok((aliases, next))
}

/// Whether the executable outcome `r` is the outcome `want` of reading a
/// segment.
pub open spec fn segment_outcome(
    r: Result<(RicciSegment, usize), ParseError>,
    want: Result<Parsed<SegmentModel>, ErrorModel>,
) -> bool {
    match want {
        Ok(p) => r matches Ok(got) && got.0@ == p.value && got.1 == p.next,
        Err(e) => r matches Err(got) && got@ == e,
    }
}

/// Whether the executable outcome `r` is the outcome `want` of reading a
/// sequence of segments.
pub open spec fn segments_outcome(
    r: Result<Vec<RicciSegment>, ParseError>,
    want: Result<Seq<SegmentModel>, ErrorModel>,
) -> bool {
    match want {
        Ok(segments) => r matches Ok(got) && segments_model(got@) == segments,
        Err(e) => r matches Err(got) && got@ == e,
    }
}

/// Whether the executable outcome `r` is the outcome `want` of reading a
/// scope.
pub open spec fn lambda_outcome(
    r: Result<RicciLambda, ParseError>,
    want: Result<LambdaModel, ErrorModel>,
) -> bool {
    match want {
        Ok(lambda) => r matches Ok(got) && got@ == lambda,
        Err(e) => r matches Err(got) && got@ == e,
    }
}

/// Whether the executable outcome `r` is the outcome `want` of reading a
/// group.
pub open spec fn group_outcome(
    r: Result<RicciGroup, ParseError>,
    want: Result<GroupModel, ErrorModel>,
) -> bool {
    match want {
        Ok(group) => r matches Ok(got) && got@ == group,
        Err(e) => r matches Err(got) && got@ == e,
    }
}

/// Whether reading the segments from `pos` on comes to reading those from
/// `next` on behind the segments `read`.
pub open spec fn segments_so_far(
    s: Seq<TokenModel>,
    pos: int,
    next: int,
    scope: Span,
    host: spec_fn(Seq<char>) -> bool,
    read: Seq<SegmentModel>,
) -> bool {
    match parse_segments(s, next, scope, host) {
        Ok(rest) => parse_segments(s, pos, scope, host) == Ok::<Seq<SegmentModel>, ErrorModel>(
            read + rest,
        ),
        Err(e) => parse_segments(s, pos, scope, host) == Err::<Seq<SegmentModel>, ErrorModel>(e),
    }
}

impl RicciSegment {
    /// Reads the segment at `pos`, and tells where it ends. Where an
    /// expression of the host language ends is asked of `asked`.
    pub fn parse(tokens: &Vec<TokenTree>, pos: usize, scope: Span, asked: &mut HostAnswers) -> (r:
        Result<(RicciSegment, usize), ParseError>)
        requires
            pos <= tokens.len(),
        ensures
            kept(old(asked)@, final(asked)@),
            forall|host: spec_fn(Seq<char>) -> bool| #[trigger]
                agrees(host, final(asked)@) ==> agrees(host, old(asked)@) && segment_outcome(
                    r,
                    parse_segment(stream_model(tokens@), pos as int, scope, host),
                ),
            r matches Ok(got) ==> pos < got.1 <= tokens.len(),
        decreases tokens, tokens.len() - pos, 1nat,
    {
        let ghost s = stream_model(tokens@);
        proof {
            lemma_stream_model_index(tokens@);
        }
        if pos >= tokens.len() {
            return Err(fault_at(ErrorKind::ExpectedToken, tokens, pos, scope));
        }
        match &tokens[pos] {
            TokenTree::Group(inner) => {
                if !matches!(inner.delimiter, Delimiter::Bare) {
                    return match parse_segment_list(&inner.stream, 0, inner.span, asked) {
                        Ok(segments) => Ok(
                            (
                                RicciSegment::SubGroup {
                                    delimiter: inner.delimiter,
                                    group: Box::new(RicciGroup { segments }),
                                },
                                pos + 1,
                            ),
                        ),
                        Err(e) => Err(e),
                    };
                }
            },
            _ => {},
        }
        if peek_word(tokens, pos, "for") {
            return match RicciLambda::parse(tokens, pos, scope, asked) {
                Ok(lambda) => Ok((RicciSegment::SubLambda(Box::new(lambda)), tokens.len())),
                Err(e) => Err(e),
            };
        }
        if peek_identifier(tokens, pos) && pos + 1 < tokens.len() {
            match (&tokens[pos], &tokens[pos + 1]) {
                (TokenTree::Ident(name), TokenTree::Group(list)) => {
                    if matches!(list.delimiter, Delimiter::Bracket) {
                        return match parse_indexer_list(&list.stream, list.span, asked) {
                            Ok(indexers) => Ok(
                                (
                                    RicciSegment::TensorCall {
                                        tensor_name: name.clone(),
                                        indexers,
                                    },
                                    pos + 2,
                                ),
                            ),
                            Err(e) => Err(e),
                        };
                    }
                },
                _ => {},
            }
        }
        match &tokens[pos] {
            TokenTree::Ident(ident) => {
                if illegal_keyword(&ident.name) {
                    return Err(
                        ParseError::about(ErrorKind::IllegalKeyword, ident.span, &ident.name),
                    );
                }
            },
            TokenTree::Punct(punct) => {
                if punct.ch == ';' {
                    return Err(ParseError::new(ErrorKind::ForbiddenSemicolon, punct.span));
                }
            },
            _ => {},
        }
        Ok((RicciSegment::Token(tokens[pos].clone()), pos + 1))
    }
}

/// Reads the segments that stand from `pos` to the end of `tokens`.
pub fn parse_segment_list(
    tokens: &Vec<TokenTree>,
    pos: usize,
    scope: Span,
    asked: &mut HostAnswers,
) -> (r: Result<Vec<RicciSegment>, ParseError>)
    requires
        pos <= tokens.len(),
    ensures
        kept(old(asked)@, final(asked)@),
        forall|host: spec_fn(Seq<char>) -> bool| #[trigger]
            agrees(host, final(asked)@) ==> agrees(host, old(asked)@) && segments_outcome(
                r,
                parse_segments(stream_model(tokens@), pos as int, scope, host),
            ),
    decreases tokens, tokens.len() - pos, 2nat,
{
    let ghost s = stream_model(tokens@);
    proof {
        lemma_stream_model_index(tokens@);
    }
    let mut segments: Vec<RicciSegment> = Vec::new();
    let mut next: usize = pos;
    assert(segments_model(segments@) =~= Seq::<SegmentModel>::empty());
    assert forall|host: spec_fn(Seq<char>) -> bool| #[trigger] agrees(host, asked@) implies segments_so_far(
        s,
        pos as int,
        pos as int,
        scope,
        host,
        segments_model(segments@),
    ) by {
        match parse_segments(s, pos as int, scope, host) {
            Ok(rest) => {
                assert(segments_model(segments@) + rest =~= rest);
            },
            Err(_) => {},
        }
    }
    while next < tokens.len()
        invariant
            pos <= next <= tokens.len(),
            s == stream_model(tokens@),
            s.len() == tokens.len(),
            kept(old(asked)@, asked@),
            forall|host: spec_fn(Seq<char>) -> bool| #[trigger]
                agrees(host, asked@) ==> agrees(host, old(asked)@) && segments_so_far(
                    s,
                    pos as int,
                    next as int,
                    scope,
                    host,
                    segments_model(segments@),
                ),
        decreases tokens.len() - next,
    {
        let ghost before = segments_model(segments@);
        let ghost asked_before = asked@;
        let ghost was_at = next;
        match RicciSegment::parse(tokens, next, scope, asked) {
            Err(e) => {
                return Err(e);
            },
            Ok((segment, after)) => {
                segments.push(segment);
                proof {
                    assert(segments_model(segments@) =~= before + seq![segment@]);
                    assert forall|host: spec_fn(Seq<char>) -> bool| #[trigger] agrees(host, asked@) implies agrees(
                        host,
                        old(asked)@,
                    ) && segments_so_far(
                        s,
                        pos as int,
                        after as int,
                        scope,
                        host,
                        segments_model(segments@),
                    ) by {
                        assert(agrees(host, asked_before));
                        assert(segments_so_far(s, pos as int, was_at as int, scope, host, before));
                        match parse_segments(s, after as int, scope, host) {
                            Ok(rest) => {
                                assert(before + (seq![segment@] + rest) =~= segments_model(
                                    segments@,
                                ) + rest);
                            },
                            Err(_) => {},
                        }
                    }
                }
                next = after;
            },
        }
    }
    proof {
        assert(segments_model(segments@) + Seq::<SegmentModel>::empty() =~= segments_model(
            segments@,
        ));
    }
    Ok(segments)
}

impl RicciGroup {
    /// Reads the group that the whole of `tokens` holds; `scope` is the
    /// position that a fault at their end points at.
    pub fn parse(tokens: &Vec<TokenTree>, scope: Span, asked: &mut HostAnswers) -> (r: Result<
        RicciGroup,
        ParseError,
    >)
        ensures
            kept(old(asked)@, final(asked)@),
            forall|host: spec_fn(Seq<char>) -> bool| #[trigger]
                agrees(host, final(asked)@) ==> agrees(host, old(asked)@) && group_outcome(
                    r,
                    parse_group(stream_model(tokens@), scope, host),
                ),
    {
        match parse_segment_list(tokens, 0, scope, asked) {
            Ok(segments) => Ok(RicciGroup { segments }),
            Err(e) => Err(e),
        }
    }
}

impl RicciLambda {
    /// Reads the scope that opens at `pos` and runs to the end of `tokens`.
    pub fn parse(tokens: &Vec<TokenTree>, pos: usize, scope: Span, asked: &mut HostAnswers) -> (r:
        Result<RicciLambda, ParseError>)
        requires
            pos <= tokens.len(),
        ensures
            kept(old(asked)@, final(asked)@),
            forall|host: spec_fn(Seq<char>) -> bool| #[trigger]
                agrees(host, final(asked)@) ==> agrees(host, old(asked)@) && lambda_outcome(
                    r,
                    parse_lambda(stream_model(tokens@), pos as int, scope, host),
                ),
        decreases tokens, tokens.len() - pos, 0nat,
    {
        proof {
            lemma_stream_model_index(tokens@);
        }
        let (index_declaration, after_header) = match RicciIndexDeclaration::parse(
            tokens,
            pos,
            scope,
        ) {
            Ok(read) => read,
            Err(e) => {
                return Err(e);
            },
        };
        let (alias_declarations, after_aliases) = match parse_alias_declarations(
            tokens,
            after_header,
            scope,
            asked,
        ) {
            Ok(read) => read,
            Err(e) => {
                return Err(e);
            },
        };
        if !peek_arrow(tokens, after_aliases) {
            return Err(fault_at(ErrorKind::ExpectedArrow, tokens, after_aliases, scope));
        }
        match parse_segment_list(tokens, after_aliases + 2, scope, asked) {
            Ok(segments) => Ok(
                RicciLambda {
                    index_declaration,
                    alias_declarations,
                    _filter: None,
                    body: RicciGroup { segments },
                },
            ),
            Err(e) => Err(e),
        }
    }
}

impl RicciLambda {
    /// Reads the scope that the whole of `tokens` holds. The outcome is the
    /// one that the grammar gives for the tokens and for the answers of the
    /// parser of the host language, which are a function of the text that it
    /// was asked about.
    pub fn from_tokens(tokens: &Vec<TokenTree>) -> (r: Result<RicciLambda, ParseError>)
        ensures
            exists|host: spec_fn(Seq<char>) -> bool|
                lambda_outcome(
                    r,
                    #[trigger] parse_lambda(stream_model(tokens@), 0, Span::CallSite, host),
                ),
    {
        let mut asked = HostAnswers::new();
        let r = RicciLambda::parse(tokens, 0, Span::CallSite, &mut asked);
        proof {
            let host = host_of(asked@);
            lemma_host_of_agrees(asked@);
            assert(agrees(host, asked@));
            assert(lambda_outcome(r, parse_lambda(stream_model(tokens@), 0, Span::CallSite, host)));
        }
        r
    }
}

impl RicciGroup {
    /// Reads the group that the whole of `tokens` holds. The outcome is the
    /// one that the grammar gives for the tokens and for the answers of the
    /// parser of the host language, which are a function of the text that it
    /// was asked about.
    pub fn from_tokens(tokens: &Vec<TokenTree>) -> (r: Result<RicciGroup, ParseError>)
        ensures
            exists|host: spec_fn(Seq<char>) -> bool|
                group_outcome(
                    r,
                    #[trigger] parse_group(stream_model(tokens@), Span::CallSite, host),
                ),
    {
        let mut asked = HostAnswers::new();
        let r = RicciGroup::parse(tokens, Span::CallSite, &mut asked);
        proof {
            let host = host_of(asked@);
            lemma_host_of_agrees(asked@);
            assert(agrees(host, asked@));
            assert(group_outcome(r, parse_group(stream_model(tokens@), Span::CallSite, host)));
        }
        r
    }
}

/// The text of one segment. An array access and a plain token are preceded
/// by one space, and so is the opening delimiter of a group.
pub open spec fn segment_text(x: SegmentModel) -> Seq<char>
    decreases x,
{
    match x {
        SegmentModel::TensorCall { tensor_name, indexers } => " "@ + tensor_name.name
            + " \u{27e6}"@ + indexers_text(indexers) + " \u{27e7}"@,
        SegmentModel::SubLambda(lambda) => lambda_text(lambda),
        SegmentModel::SubGroup { delimiter, group } => match delimiter {
            Delimiter::Parenthesis => " ("@ + segments_text(group.segments) + ")"@,
            Delimiter::Brace => " {"@ + segments_text(group.segments) + "}"@,
            Delimiter::Bracket => " ["@ + segments_text(group.segments) + "]"@,
            Delimiter::Bare => segments_text(group.segments),
        },
        SegmentModel::Token(token) => " "@ + token_text(token),
    }
}

/// The text of a sequence of segments: their texts, one after the other.
pub open spec fn segments_text(s: Seq<SegmentModel>) -> Seq<char>
    decreases s,
{
    if s.len() == 0 {
        Seq::empty()
    } else {
        segments_text(s.drop_last()) + segment_text(s.last())
    }
}

/// The text of a group.
pub open spec fn group_text(g: GroupModel) -> Seq<char> {
    segments_text(g.segments)
}

/// The text of a list of alias declarations, each followed by one space.
pub open spec fn aliases_text(s: Seq<AliasModel>) -> Seq<char>
    decreases s.len(),
{
    if s.len() == 0 {
        Seq::empty()
    } else {
        aliases_text(s.drop_last()) + alias_text(s.last()) + " "@
    }
}

/// The text of a scope: its header, its alias declarations, a triangle, and
/// its body.
pub open spec fn lambda_text(l: LambdaModel) -> Seq<char>
    decreases l,
{
    index_declaration_text(l.index_declaration) + " "@ + aliases_text(l.alias_declarations)
        + "\u{25b8}"@ + segments_text(l.body.segments)
}

/// The model of the first `n + 1` segments is the model of the first `n`,
/// followed by the model of segment `n`.
pub proof fn lemma_segments_model_take(s: Seq<RicciSegment>, n: int)
    requires
        0 <= n < s.len(),
    ensures
        segments_model(s.take(n + 1)) == segments_model(s.take(n)).push(segment_model(s[n])),
        segments_model(s.take(n + 1)).drop_last() == segments_model(s.take(n)),
        segments_model(s)[n] == segment_model(s[n]),
        segments_model(s).len() == s.len(),
{
    assert(segments_model(s.take(n + 1)) =~= segments_model(s.take(n)).push(segment_model(s[n])));
    assert(segments_model(s.take(n + 1)).drop_last() =~= segments_model(s.take(n)));
}

/// Appends the text of `segments` to `out`.
pub fn write_segments(segments: &Vec<RicciSegment>, out: &mut String)
    ensures
        final(out)@ == old(out)@ + segments_text(segments_model(segments@)),
    decreases segments, 1nat,
{
    let mut i: usize = 0;
    assert(segments_model(segments@.take(0)) =~= Seq::<SegmentModel>::empty());
    assert(out@ =~= old(out)@ + segments_text(segments_model(segments@.take(0))));
    while i < segments.len()
        invariant
            i <= segments.len(),
            out@ == old(out)@ + segments_text(segments_model(segments@.take(i as int))),
        decreases segments.len() - i,
    {
        proof {
            lemma_segments_model_take(segments@, i as int);
        }
        segments[i].fmt(out);
        proof {
            let next = segments_model(segments@.take(i + 1));
            assert(out@ =~= old(out)@ + (segments_text(next.drop_last()) + segment_text(
                next.last(),
            )));
        }
        i += 1;
    }
    assert(segments@.take(i as int) =~= segments@);
}

impl RicciSegment {
    /// Appends the text of the segment to `out`.
    pub fn fmt(&self, out: &mut String)
        ensures
            final(out)@ == old(out)@ + segment_text(self@),
        decreases self, 0nat,
    {
        let ghost before = out@;
        match self {
            RicciSegment::TensorCall { tensor_name, indexers } => {
                out.append(" ");
                out.append(tensor_name.name.as_str());
                out.append(" \u{27e6}");
                write_indexers(indexers, out);
                out.append(" \u{27e7}");
            },
            RicciSegment::SubLambda(lambda) => {
                lambda.fmt(out);
            },
            RicciSegment::SubGroup { delimiter, group } => {
                match delimiter {
                    Delimiter::Parenthesis => out.append(" ("),
                    Delimiter::Brace => out.append(" {"),
                    Delimiter::Bracket => out.append(" ["),
                    Delimiter::Bare => {},
                }
                write_segments(&group.segments, out);
                match delimiter {
                    Delimiter::Parenthesis => out.append(")"),
                    Delimiter::Brace => out.append("}"),
                    Delimiter::Bracket => out.append("]"),
                    Delimiter::Bare => {},
                }
            },
            RicciSegment::Token(token) => {
                out.append(" ");
                write_token(token, out);
            },
        }
        assert(out@ =~= before + segment_text(self@));
    }

    /// The text of the segment.
    pub fn to_string(&self) -> (text: String)
        ensures
            text@ == segment_text(self@),
    {
        let mut out = String::new();
        self.fmt(&mut out);
        assert(out@ =~= segment_text(self@));
        out
    }
}

impl RicciGroup {
    /// Appends the text of the group to `out`.
    pub fn fmt(&self, out: &mut String)
        ensures
            final(out)@ == old(out)@ + group_text(self@),
    {
        write_segments(&self.segments, out);
    }

    /// The text of the group.
    pub fn to_string(&self) -> (text: String)
        ensures
            text@ == group_text(self@),
    {
        let mut out = String::new();
        self.fmt(&mut out);
        assert(out@ =~= group_text(self@));
        out
    }
}

impl RicciLambda {
    /// Appends the text of the scope to `out`.
    pub fn fmt(&self, out: &mut String)
        ensures
            final(out)@ == old(out)@ + lambda_text(self@),
        decreases self, 0nat,
    {
        self.index_declaration.fmt(out);
        out.append(" ");
        let ghost before = out@;
        let ghost aliases = aliases_model(self.alias_declarations@);
        let mut i: usize = 0;
        assert(aliases.take(0) =~= Seq::<AliasModel>::empty());
        assert(out@ =~= before + aliases_text(aliases.take(0)));
        while i < self.alias_declarations.len()
            invariant
                i <= self.alias_declarations.len(),
                aliases == aliases_model(self.alias_declarations@),
                out@ == before + aliases_text(aliases.take(i as int)),
            decreases self.alias_declarations.len() - i,
        {
            proof {
                let next = aliases.take(i + 1);
                assert(next.drop_last() =~= aliases.take(i as int));
                assert(next.last() == self.alias_declarations[i as int]@);
            }
            self.alias_declarations[i].fmt(out);
            out.append(" ");
            proof {
                let next = aliases.take(i + 1);
                assert(out@ =~= before + (aliases_text(next.drop_last()) + alias_text(next.last())
                    + " "@));
            }
            i += 1;
        }
        assert(aliases.take(i as int) =~= aliases);
        out.append("\u{25b8}");
        write_segments(&self.body.segments, out);
        assert(out@ =~= old(out)@ + lambda_text(self@));
    }

    /// The text of the scope.
    pub fn to_string(&self) -> (text: String)
        ensures
            text@ == lambda_text(self@),
    {
        let mut out = String::new();
        self.fmt(&mut out);
        assert(out@ =~= lambda_text(self@));
        out
    }
}

/// The text of the expression that the tokens `s` read as, or the fault of
/// the reading.
pub open spec fn written(s: Seq<TokenModel>, host: spec_fn(Seq<char>) -> bool) -> Result<Seq<char>, ErrorModel> {
    match parse_group(s, Span::CallSite, host) {
        Ok(group) => Ok(group_text(group)),
        Err(e) => Err(e),
    }
}

/// Two sequences of tokens with the same models, that is the same tokens
/// at the same positions, read as the same tree and are written as the same
/// text, given the same answers of the parser of the host language.
pub proof fn lemma_same_tokens_same_text(
    first: Seq<TokenTree>,
    second: Seq<TokenTree>,
    host: spec_fn(Seq<char>) -> bool,
)
    requires
        stream_model(first) == stream_model(second),
    ensures
        parse_group(stream_model(first), Span::CallSite, host) == parse_group(
            stream_model(second),
            Span::CallSite,
            host,
        ),
        written(stream_model(first), host) == written(stream_model(second), host),
{
}

} // verus!
