//! The inline parser: reads an expression and notes the uses of its indexes
//! while it reads.
//!
//! A scope is written `for i j => body` or, shorter, `i j $ body`: in the
//! short form the identifiers that stand right before `$` are the indexes.
//! Either way the body is every token that follows, up to the end of the
//! enclosing group. An identifier followed by a group in brackets is an
//! array access, whose brackets hold indexes separated by commas. A `;` and
//! a group in braces are refused. An index that is declared has to be used:
//! the extent it ranges over is that of the array positions it fills.
//!
//! The table of the indexes is local to the scopes. An index can be used
//! from its declaration to the end of its scope. A name that an open scope
//! has declared cannot be declared again; once the scope has closed, the
//! name is free, and a scope that declares it anew gets an index of its own
//! with uses of its own. The tree keeps the rank of each index among the
//! indexes of its name, by which code generation tells them apart.
use crate::error::{named_fault, plain_fault, ErrorKind, ErrorModel, ParseError};
use crate::model::header::{fault_at, missing, parse_index_declaration, RicciIndexDeclaration};
use crate::model::lambda::{arrow_at, peek_arrow};
use crate::token::{
    idents_model, lemma_stream_model_index, stream_model, Delimiter, Group, Ident, IdentModel,
    Punct, Span, TokenModel, TokenTree,
};
use crate::types::{
    closed_from, count_named, declared, every_index_used, is_identifier_piece, noted,
    table_is_sound, trailing_inverted,
    trailing_start, unused_place, AlternativeModel, EinsteinAlternative, EinsteinFunction,
    EinsteinSequence, FunctionModel, IndexEntryModel, IndexUse, SequenceModel,
};
use vstd::prelude::*;

pub mod laws;

verus! {

/// How far the reading of a sequence has come: the pieces read, and the
/// table of indexes.
pub ghost struct Progress {
    pub content: Seq<AlternativeModel>,
    pub table: Seq<IndexEntryModel>,
}

/// Progress, with the position at which the reading goes on.
pub ghost struct Advance {
    pub progress: Progress,
    pub next: int,
}

/// The table after the indexes of `indexes` from `from` on were declared, or
/// the fault of the first whose name was taken.
pub open spec fn declare_all(table: Seq<IndexEntryModel>, indexes: Seq<IdentModel>, from: int) -> Result<
    Seq<IndexEntryModel>,
    ErrorModel,
>
    decreases indexes.len() - from,
{
    if !(0 <= from < indexes.len()) {
        Ok(table)
    } else {
        match declared(table, indexes[from]) {
            None => Err(plain_fault(ErrorKind::ReusedIndex, indexes[from].span)),
            Some(next) => declare_all(next, indexes, from + 1),
        }
    }
}

/// The table after each index of `indexes` from `from` on was noted as used
/// at its own position of the array `tensor`, or the fault of the first that
/// was never declared.
pub open spec fn note_all(
    table: Seq<IndexEntryModel>,
    indexes: Seq<IdentModel>,
    tensor: IdentModel,
    from: int,
) -> Result<Seq<IndexEntryModel>, ErrorModel>
    decreases indexes.len() - from,
{
    if !(0 <= from < indexes.len()) {
        Ok(table)
    } else {
        match noted(table, indexes[from], tensor, from) {
            None => Err(plain_fault(ErrorKind::UndeclaredIndex, indexes[from].span)),
            Some(next) => note_all(next, indexes, tensor, from + 1),
        }
    }
}

/// The ranks that indexes named as `names` are get when they are declared
/// in the table `table`: for each, how many indexes of its name the table
/// holds.
pub open spec fn ranks_of(table: Seq<IndexEntryModel>, names: Seq<IdentModel>) -> Seq<usize> {
    Seq::new(
        names.len(),
        |i: int| count_named(table, names[i].name, table.len() as int) as usize,
    )
}

/// Whether nothing but identifiers and commas stands in `stream`.
pub open spec fn index_list_valid(stream: Seq<TokenModel>) -> bool {
    forall|i: int| 0 <= i < stream.len() ==> (#[trigger] stream[i]) is Ident || stream[i].is_punct(',')
}

/// The identifiers of `stream`, in order.
pub open spec fn listed_indexes(stream: Seq<TokenModel>) -> Seq<IdentModel>
    decreases stream.len(),
{
    if stream.len() == 0 {
        Seq::empty()
    } else {
        listed_indexes(stream.drop_last()) + (match stream.last() {
            TokenModel::Ident(i) => seq![i],
            _ => Seq::empty(),
        })
    }
}

/// Whether the group `group` is refused before anything is read from it: it
/// stands in braces, or it stands in brackets and either no name of an
/// array comes before it or something other than identifiers and commas
/// stands in it.
pub open spec fn refused_at_once(group: TokenModel, content: Seq<AlternativeModel>) -> bool {
    match group {
        TokenModel::Group { delimiter, stream, .. } => match delimiter {
            Delimiter::Brace => true,
            Delimiter::Bracket => !(content.len() > 0 && is_identifier_piece(content.last()))
                || !index_list_valid(stream),
            _ => false,
        },
        _ => false,
    }
}

/// What reading the group `group` adds to the pieces `content`.
pub open spec fn parse_group_spec(
    group: TokenModel,
    content: Seq<AlternativeModel>,
    table: Seq<IndexEntryModel>,
) -> Result<Progress, ErrorModel>
    decreases group, 0nat, 0nat,
{
    match group {
        TokenModel::Group { delimiter, stream, span } => match delimiter {
            Delimiter::Brace => Err(plain_fault(ErrorKind::ForbiddenBraces, span)),
            Delimiter::Bracket => if content.len() > 0 && is_identifier_piece(content.last()) {
                let tensor_name = content.last()->Tree_0->Ident_0;
                if !index_list_valid(stream) {
                    Err(plain_fault(ErrorKind::InvalidIndexContent, span))
                } else {
                    let indexes = listed_indexes(stream);
                    match note_all(table, indexes, tensor_name, 0) {
                        Err(e) => Err(e),
                        Ok(next) => Ok(
                            Progress {
                                content: content.drop_last().push(
                                    AlternativeModel::TensorAccess { tensor_name, span, indexes },
                                ),
                                table: next,
                            },
                        ),
                    }
                }
            } else {
                Err(plain_fault(ErrorKind::MissingTensorName, span))
            },
            _ => match parse_sequence_spec(stream, 0, span, Seq::empty(), table) {
                Err(e) => Err(e),
                Ok(inner) => Ok(
                    Progress {
                        content: content.push(
                            AlternativeModel::Sequence(
                                SequenceModel {
                                    span,
                                    use_parens: delimiter == Delimiter::Parenthesis,
                                    content: inner.content,
                                },
                            ),
                        ),
                        table: inner.table,
                    },
                ),
            },
        },
        _ => Ok(Progress { content, table }),
    }
}

/// What reading the punctuation character `punct` does, where `pos` is the
/// position after it. A `$` makes a scope of the identifiers that end
/// `content` and of every token from `pos` on; when the tokens are read, the
/// scope closes.
pub open spec fn parse_punct_spec(
    punct: Punct,
    s: Seq<TokenModel>,
    pos: int,
    content: Seq<AlternativeModel>,
    table: Seq<IndexEntryModel>,
) -> Result<Advance, ErrorModel>
    decreases s, s.len() - pos, 2nat,
{
    if punct.ch == ';' {
        Err(plain_fault(ErrorKind::ForbiddenSemicolon, punct.span))
    } else if punct.ch == '$' {
        let inverted = trailing_inverted(content);
        match declare_all(table, inverted.reverse(), 0) {
            Err(e) => Err(e),
            Ok(opened) => match parse_sequence_spec(s, pos, punct.span, Seq::empty(), opened) {
                Err(e) => Err(e),
                Ok(body) => Ok(
                    Advance {
                        progress: Progress {
                            content: content.take(trailing_start(content)).push(
                                AlternativeModel::Func(
                                    FunctionModel {
                                        inverted_indexes: inverted,
                                        inverted_ranks: ranks_of(table, inverted),
                                        sequence: SequenceModel {
                                            span: punct.span,
                                            use_parens: false,
                                            content: body.content,
                                        },
                                    },
                                ),
                            ),
                            table: closed_from(body.table, table.len() as int),
                        },
                        next: if pos <= s.len() {
                            s.len() as int
                        } else {
                            pos
                        },
                    },
                ),
            },
        }
    } else {
        Ok(
            Advance {
                progress: Progress {
                    content: content.push(AlternativeModel::Tree(TokenModel::Punct(punct))),
                    table,
                },
                next: pos,
            },
        )
    }
}

/// What reading the scope does whose `for` stands at `pos`: its header runs
/// to `=>`, its body is every token after that, and then the scope closes. `scope` is where a
/// fault at the end of the tokens points.
pub open spec fn parse_for_spec(
    s: Seq<TokenModel>,
    pos: int,
    scope: Span,
    content: Seq<AlternativeModel>,
    table: Seq<IndexEntryModel>,
) -> Result<Progress, ErrorModel>
    decreases s, s.len() - pos, 0nat,
{
    match parse_index_declaration(s, pos, scope) {
        Err(e) => Err(e),
        Ok(header) => if !arrow_at(s, header.next) {
            Err(missing(ErrorKind::ExpectedArrow, s, header.next, scope))
        } else {
            match declare_all(table, header.value, 0) {
                Err(e) => Err(e),
                Ok(opened) => if 0 <= pos < header.next + 2 <= s.len() {
                    match parse_sequence_spec(
                        s,
                        header.next + 2,
                        s[pos].span(),
                        Seq::empty(),
                        opened,
                    ) {
                        Err(e) => Err(e),
                        Ok(body) => Ok(
                            Progress {
                                content: content.push(
                                    AlternativeModel::Func(
                                        FunctionModel {
                                            inverted_indexes: header.value.reverse(),
                                            inverted_ranks: ranks_of(
                                                table,
                                                header.value.reverse(),
                                            ),
                                            sequence: SequenceModel {
                                                span: s[pos].span(),
                                                use_parens: false,
                                                content: body.content,
                                            },
                                        },
                                    ),
                                ),
                                table: closed_from(body.table, table.len() as int),
                            },
                        ),
                    }
                } else {
                    Err(missing(ErrorKind::ExpectedArrow, s, header.next, scope))
                },
            }
        },
    }
}

/// What reading the tokens of `s` from `pos` on adds to the pieces `content`
/// and to the table `table`, or the first fault met. `scope` is where a
/// fault at the end of the tokens points.
pub open spec fn parse_sequence_spec(
    s: Seq<TokenModel>,
    pos: int,
    scope: Span,
    content: Seq<AlternativeModel>,
    table: Seq<IndexEntryModel>,
) -> Result<Progress, ErrorModel>
    decreases s, s.len() - pos, 1nat,
{
    if !(0 <= pos < s.len()) {
        Ok(Progress { content, table })
    } else {
        match s[pos] {
            TokenModel::Punct(punct) => match parse_punct_spec(punct, s, pos + 1, content, table) {
                Err(e) => Err(e),
                Ok(a) => if pos < a.next <= s.len() {
                    parse_sequence_spec(s, a.next, scope, a.progress.content, a.progress.table)
                } else {
                    Ok(a.progress)
                },
            },
            TokenModel::Group { .. } => match parse_group_spec(s[pos], content, table) {
                Err(e) => Err(e),
                Ok(p) => parse_sequence_spec(s, pos + 1, scope, p.content, p.table),
            },
            _ => if s[pos].is_word("for"@) {
                parse_for_spec(s, pos, scope, content, table)
            } else {
                parse_sequence_spec(
                    s,
                    pos + 1,
                    scope,
                    content.push(AlternativeModel::Tree(s[pos])),
                    table,
                )
            },
        }
    }
}

/// What the whole of `s` reads as: its sequence and its table of indexes.
/// An index that is declared and never used is a fault.
pub open spec fn parse_spec(s: Seq<TokenModel>) -> Result<Progress, ErrorModel> {
    match parse_sequence_spec(s, 0, Span::CallSite, Seq::empty(), Seq::empty()) {
        Err(e) => Err(e),
        Ok(p) => match unused_place(p.table, 0) {
            Some(k) => Err(
                named_fault(ErrorKind::UnusedIndex, p.table[k].index.span, p.table[k].index.name),
            ),
            None => Ok(p),
        },
    }
}

/// The fault of kind `kind` at `span`.
pub fn generate_compilation_error(span: Span, kind: ErrorKind) -> (r: Result<(), ParseError>)
    ensures
        r matches Err(e) && e@ == plain_fault(kind, span),
{
    Err(ParseError::new(kind, span))
}

/// The identifiers of `v`, last first.
pub fn reversed(v: &Vec<Ident>) -> (r: Vec<Ident>)
    ensures
        idents_model(r@) == idents_model(v@).reverse(),
        r.len() == v.len(),
{
    let mut out: Vec<Ident> = Vec::new();
    let mut i: usize = v.len();
    while i > 0
        invariant
            i <= v.len(),
            out.len() == v.len() - i,
            forall|k: int| 0 <= k < out.len() ==> (#[trigger] out[k])@ == v[v.len() - 1 - k]@,
        decreases i,
    {
        i -= 1;
        out.push(v[i].clone());
    }
    assert(idents_model(out@) =~= idents_model(v@).reverse());
    out
}

/// The ranks that indexes named as `names` are get when they are declared
/// now.
pub fn ranks(index_use: &IndexUse, names: &Vec<Ident>) -> (r: Vec<usize>)
    ensures
        r@ == ranks_of(index_use@, idents_model(names@)),
{
    let mut out: Vec<usize> = Vec::new();
    let mut i: usize = 0;
    while i < names.len()
        invariant
            i <= names.len(),
            out.len() == i,
            forall|k: int|
                0 <= k < i ==> #[trigger] out[k] == count_named(
                    index_use@,
                    names[k]@.name,
                    index_use@.len() as int,
                ),
        decreases names.len() - i,
    {
        out.push(index_use.rank_of(&names[i]));
        i += 1;
    }
    assert(out@ =~= ranks_of(index_use@, idents_model(names@)));
    out
}

/// Declares the indexes `indexes`, in order.
pub fn declare_indexes(indexes: Vec<Ident>, index_use: &mut IndexUse) -> (r: Result<
    (),
    ParseError,
>)
    ensures
        match declare_all(old(index_use)@, idents_model(indexes@), 0) {
            Ok(table) => r is Ok && final(index_use)@ == table,
            Err(e) => r matches Err(got) && got@ == e,
        },
{
    let ghost all = idents_model(indexes@);
    let ghost start = index_use@;
    let mut i: usize = 0;
    while i < indexes.len()
        invariant
            i <= indexes.len(),
            all == idents_model(indexes@),
            start == old(index_use)@,
            declare_all(start, all, 0) == declare_all(index_use@, all, i as int),
        decreases indexes.len() - i,
    {
        let index_name = indexes[i].clone();
        let span = index_name.span;
        let added = index_use.declare_new(index_name);
        if !added {
            return generate_compilation_error(span, ErrorKind::ReusedIndex);
        }
        i += 1;
    }
    Ok(())
}

/// Reads what follows the punctuation character `punct`, which stood right
/// before `pos`, and tells where the reading goes on.
pub fn parse_punct(
    punct: Punct,
    tokens: &Vec<TokenTree>,
    pos: usize,
    sequence: &mut EinsteinSequence,
    index_use: &mut IndexUse,
) -> (r: Result<usize, ParseError>)
    requires
        pos <= tokens.len(),
    ensures
        match parse_punct_spec(
            punct,
            stream_model(tokens@),
            pos as int,
            old(sequence)@.content,
            old(index_use)@,
        ) {
            Ok(a) => r == Ok::<usize, ParseError>(a.next as usize) && pos <= a.next <= tokens.len()
                && final(sequence)@ == (SequenceModel {
                content: a.progress.content,
                ..old(sequence)@
            }) && final(index_use)@ == a.progress.table,
            Err(e) => r matches Err(got) && got@ == e,
        },
        punct.ch == ';' ==> final(sequence)@ == old(sequence)@ && final(index_use)@ == old(
            index_use,
        )@,
    decreases tokens, tokens.len() - pos, 2nat,
{
    proof {
        lemma_stream_model_index(tokens@);
    }
    let c = punct.as_char();
    if c == ';' {
        match generate_compilation_error(punct.span, ErrorKind::ForbiddenSemicolon) {
            Err(e) => Err(e),
            Ok(()) => Ok(pos),
        }
    } else if c == '$' {
        let inverted_indexes = sequence.extract_previous_identifiers();
        let direct_indexes = reversed(&inverted_indexes);
        let base: usize = index_use.len();
        let inverted_ranks = ranks(index_use, &inverted_indexes);
        match declare_indexes(direct_indexes, index_use) {
            Err(e) => {
                return Err(e);
            },
            Ok(()) => {},
        }
        let mut new_sequence = EinsteinSequence::naked(punct.span);
        match parse_sequence(tokens, pos, &mut new_sequence, index_use) {
            Err(e) => {
                return Err(e);
            },
            Ok(()) => {},
        }
        index_use.close_from(base);
        let func = EinsteinFunction::ranked(inverted_indexes, inverted_ranks, new_sequence);
        sequence.push(EinsteinAlternative::Func(func));
        Ok(tokens.len())
    } else {
        sequence.push_token(TokenTree::Punct(punct));
        Ok(pos)
    }
}

/// Reads the indexes inside the brackets of an array access.
pub fn parse_tensor_indexing(group: &Group) -> (r: Result<Vec<Ident>, ParseError>)
    ensures
        match r {
            Ok(indexes) => index_list_valid(stream_model(group.stream@)) && idents_model(indexes@)
                == listed_indexes(stream_model(group.stream@)),
            Err(e) => !index_list_valid(stream_model(group.stream@)) && e@ == plain_fault(
                ErrorKind::InvalidIndexContent,
                group.span,
            ),
        },
{
    let ghost s = stream_model(group.stream@);
    proof {
        lemma_stream_model_index(group.stream@);
    }
    let mut indexes: Vec<Ident> = Vec::new();
    let mut i: usize = 0;
    assert(s.take(0) =~= Seq::<TokenModel>::empty());
    assert(idents_model(indexes@) =~= listed_indexes(s.take(0)));
    while i < group.stream.len()
        invariant
            i <= group.stream.len(),
            s == stream_model(group.stream@),
            s.len() == group.stream.len(),
            forall|k: int| 0 <= k < i ==> (#[trigger] s[k]) is Ident || s[k].is_punct(','),
            idents_model(indexes@) == listed_indexes(s.take(i as int)),
        decreases group.stream.len() - i,
    {
        let ghost before = idents_model(indexes@);
        proof {
            assert(s.take(i + 1).drop_last() =~= s.take(i as int));
            assert(s.take(i + 1).last() == s[i as int]);
        }
        match &group.stream[i] {
            TokenTree::Ident(index) => {
                indexes.push(index.clone());
                assert(idents_model(indexes@) =~= before + seq![index@]);
            },
            TokenTree::Punct(p) => {
                if p.as_char() != ',' {
                    assert(!(s[i as int] is Ident || s[i as int].is_punct(',')));
                    return Err(ParseError::new(ErrorKind::InvalidIndexContent, group.span));
                }
                assert(before + Seq::<IdentModel>::empty() =~= before);
            },
            _ => {
                assert(!(s[i as int] is Ident || s[i as int].is_punct(',')));
                return Err(ParseError::new(ErrorKind::InvalidIndexContent, group.span));
            },
        }
        i += 1;
    }
    assert(s.take(i as int) =~= s);
    Ok(indexes)
}

/// Notes each index of `indexes` as used at its own position of the array
/// `tensor_name`.
pub fn note_indexes(indexes: &Vec<Ident>, tensor_name: &Ident, index_use: &mut IndexUse) -> (r:
    Result<(), ParseError>)
    ensures
        match note_all(old(index_use)@, idents_model(indexes@), tensor_name@, 0) {
            Ok(table) => r is Ok && final(index_use)@ == table,
            Err(e) => r matches Err(got) && got@ == e,
        },
{
    let ghost all = idents_model(indexes@);
    let ghost start = index_use@;
    let mut position: usize = 0;
    while position < indexes.len()
        invariant
            position <= indexes.len(),
            all == idents_model(indexes@),
            start == old(index_use)@,
            note_all(start, all, tensor_name@, 0) == note_all(
                index_use@,
                all,
                tensor_name@,
                position as int,
            ),
        decreases indexes.len() - position,
    {
        let index_name = &indexes[position];
        let added = index_use.push(index_name.clone(), tensor_name.clone(), position);
        if !added {
            return generate_compilation_error(index_name.span, ErrorKind::UndeclaredIndex);
        }
        position += 1;
    }
    Ok(())
}

/// Reads the group `group` into `sequence`.
pub fn parse_group(group: &Group, sequence: &mut EinsteinSequence, index_use: &mut IndexUse) -> (r:
    Result<(), ParseError>)
    ensures
        match parse_group_spec(group@, old(sequence)@.content, old(index_use)@) {
            Ok(p) => r is Ok && final(sequence)@ == (SequenceModel {
                content: p.content,
                ..old(sequence)@
            }) && final(index_use)@ == p.table,
            Err(e) => r matches Err(got) && got@ == e,
        },
        r is Err && refused_at_once(group@, old(sequence)@.content) ==> final(sequence)@ == old(
            sequence,
        )@ && final(index_use)@ == old(index_use)@,
    decreases group, 0nat, 0nat,
{
    let ghost before = sequence@.content;
    match group.delimiter {
        Delimiter::Brace => generate_compilation_error(group.span, ErrorKind::ForbiddenBraces),
        Delimiter::Bracket => {
            let n: usize = sequence.content.len();
            let found = if n > 0 {
                match &sequence.content[n - 1] {
                    EinsteinAlternative::Tree(TokenTree::Ident(tensor_name)) => Some(
                        tensor_name.clone(),
                    ),
                    _ => None,
                }
            } else {
                None
            };
            match found {
                Some(tensor_name) => {
                    let span = group.span;
                    let indexes = match parse_tensor_indexing(group) {
                        Ok(indexes) => indexes,
                        Err(e) => {
                            return Err(e);
                        },
                    };
                    match note_indexes(&indexes, &tensor_name, index_use) {
                        Err(e) => {
                            return Err(e);
                        },
                        Ok(()) => {},
                    }
                    sequence.content.pop();
                    assert(sequence@.content =~= before.drop_last());
                    sequence.push(EinsteinAlternative::TensorAccess { tensor_name, span, indexes });
                    Ok(())
                },
                None => generate_compilation_error(group.span, ErrorKind::MissingTensorName),
            }
        },
        delimiter => {
            let mut new_sequence = if matches!(delimiter, Delimiter::Parenthesis) {
                EinsteinSequence::with_parens(group.span)
            } else {
                EinsteinSequence::naked(group.span)
            };
            match parse_sequence(&group.stream, 0, &mut new_sequence, index_use) {
                Err(e) => {
                    return Err(e);
                },
                Ok(()) => {},
            }
            sequence.push(EinsteinAlternative::Sequence(new_sequence));
            Ok(())
        },
    }
}

/// Reads the tokens from `pos` on into `sequence`.
pub fn parse_sequence(
    tokens: &Vec<TokenTree>,
    pos: usize,
    sequence: &mut EinsteinSequence,
    index_use: &mut IndexUse,
) -> (r: Result<(), ParseError>)
    requires
        pos <= tokens.len(),
    ensures
        match parse_sequence_spec(
            stream_model(tokens@),
            pos as int,
            old(sequence)@.span,
            old(sequence)@.content,
            old(index_use)@,
        ) {
            Ok(p) => r is Ok && final(sequence)@ == (SequenceModel {
                content: p.content,
                ..old(sequence)@
            }) && final(index_use)@ == p.table,
            Err(e) => r matches Err(got) && got@ == e,
        },
    decreases tokens, tokens.len() - pos, 1nat,
{
    let scope = sequence.span;
    let ghost s = stream_model(tokens@);
    let ghost start_content = sequence@.content;
    let ghost start_table = index_use@;
    proof {
        lemma_stream_model_index(tokens@);
    }
    let mut next: usize = pos;
    while next < tokens.len()
        invariant
            pos <= next <= tokens.len(),
            s == stream_model(tokens@),
            s.len() == tokens.len(),
            start_content == old(sequence)@.content,
            start_table == old(index_use)@,
            scope == old(sequence)@.span,
            sequence@.span == old(sequence)@.span,
            sequence@.use_parens == old(sequence)@.use_parens,
            parse_sequence_spec(s, pos as int, scope, start_content, start_table)
                == parse_sequence_spec(s, next as int, scope, sequence@.content, index_use@),
        decreases tokens.len() - next,
    {
        match &tokens[next] {
            TokenTree::Punct(punct) => {
                match parse_punct(*punct, tokens, next + 1, sequence, index_use) {
                    Err(e) => {
                        return Err(e);
                    },
                    Ok(after) => {
                        next = after;
                    },
                }
            },
            TokenTree::Group(group) => {
                match parse_group(group, sequence, index_use) {
                    Err(e) => {
                        return Err(e);
                    },
                    Ok(()) => {},
                }
                next += 1;
            },
            token => {
                let opens_scope = match token {
                    TokenTree::Ident(ident) => ident.is("for"),
                    _ => false,
                };
                if opens_scope {
                    return parse_for(tokens, next, sequence, index_use);
                }
                sequence.push_token(token.clone());
                next += 1;
            },
        }
    }
    Ok(())
}

/// Reads the scope whose `for` stands at `pos` into `sequence`.
pub fn parse_for(
    tokens: &Vec<TokenTree>,
    pos: usize,
    sequence: &mut EinsteinSequence,
    index_use: &mut IndexUse,
) -> (r: Result<(), ParseError>)
    requires
        pos < tokens.len(),
    ensures
        match parse_for_spec(
            stream_model(tokens@),
            pos as int,
            old(sequence)@.span,
            old(sequence)@.content,
            old(index_use)@,
        ) {
            Ok(p) => r is Ok && final(sequence)@ == (SequenceModel {
                content: p.content,
                ..old(sequence)@
            }) && final(index_use)@ == p.table,
            Err(e) => r matches Err(got) && got@ == e,
        },
    decreases tokens, tokens.len() - pos, 0nat,
{
    proof {
        lemma_stream_model_index(tokens@);
    }
    let scope = sequence.span;
    let (header, after_header) = match RicciIndexDeclaration::parse(tokens, pos, scope) {
        Ok(read) => read,
        Err(e) => {
            return Err(e);
        },
    };
    if !peek_arrow(tokens, after_header) {
        return Err(fault_at(ErrorKind::ExpectedArrow, tokens, after_header, scope));
    }
    let inverted_indexes = reversed(&header.indexes);
    let base: usize = index_use.len();
    let inverted_ranks = ranks(index_use, &inverted_indexes);
    match declare_indexes(header.indexes, index_use) {
        Err(e) => {
            return Err(e);
        },
        Ok(()) => {},
    }
    let mut new_sequence = EinsteinSequence::naked(tokens[pos].span());
    match parse_sequence(tokens, after_header + 2, &mut new_sequence, index_use) {
        Err(e) => {
            return Err(e);
        },
        Ok(()) => {},
    }
    index_use.close_from(base);
    let func = EinsteinFunction::ranked(inverted_indexes, inverted_ranks, new_sequence);
    sequence.push(EinsteinAlternative::Func(func));
    Ok(())
}

/// Reads a whole expression: gives its sequence and the uses of its
/// indexes, or the first fault met. When the expression is read, every
/// scope has closed.
pub fn parse(input: &Vec<TokenTree>) -> (r: Result<(EinsteinSequence, IndexUse), ParseError>)
    ensures
        match parse_spec(stream_model(input@)) {
            Ok(p) => r matches Ok(got) && got.0@ == (SequenceModel {
                span: Span::CallSite,
                use_parens: false,
                content: p.content,
            }) && got.1@ == p.table && every_index_used(got.1@) && table_is_sound(got.1@),
            Err(e) => r matches Err(got) && got@ == e,
        },
        r matches Ok(got) ==> forall|i: int| 0 <= i < got.1@.len() ==> !(#[trigger] got.1@[i]).open,
{
    proof {
        laws::lemma_table_of_expression_is_sound(stream_model(input@));
        if parse_spec(stream_model(input@)) is Ok {
            laws::lemma_every_scope_has_closed(stream_model(input@));
        }
    }
    let mut sequence = EinsteinSequence::initial();
    let mut index_use = IndexUse::new();
    match parse_sequence(input, 0, &mut sequence, &mut index_use) {
        Err(e) => {
            return Err(e);
        },
        Ok(()) => {},
    }
    match index_use.first_unused() {
        Some(index) => Err(ParseError::about(ErrorKind::UnusedIndex, index.span, &index.name)),
        None => Ok((sequence, index_use)),
    }
}

} // verus!
