//! What a scope declares, and how the position of an array is filled.
//!
//! A scope opens with `for` and the indexes it declares. An array access
//! fills each of its positions through an indexer: an index taken as it is,
//! an index taken in reverse (`rev: i`), the result of another array applied
//! to indexers of its own (`f[i, j]`), or an expression of the host language
//! that is tied to no index (`plain: n + 1`).
use crate::error::{named_fault, plain_fault, ErrorKind, ErrorModel, ParseError};
use crate::text::{put_all_in_brackets, query_text, stream_text, stream_to_string, write_stream};
use crate::token::{
    clone_range, lemma_stream_model_index, span_at, stream_model, Delimiter, Ident, IdentModel,
    Span, TokenModel, TokenTree,
};
use vstd::prelude::*;

verus! {

/// The indexes that a scope declares, in the order in which they are written.
#[derive(Debug, PartialEq, Eq)]
pub struct RicciIndexDeclaration {
    pub indexes: Vec<Ident>,
}

/// How one position of an array is filled.
#[derive(Debug, PartialEq, Eq)]
pub enum RicciIndexer {
    /// The index itself.
    Direct { index: Ident },
    /// The result of the array `reindexing_name` applied to indexers of its own.
    Reindexing { reindexing_name: Ident, indexers: Vec<RicciIndexer> },
    /// The index, taken in reverse.
    Reverse { index: Ident },
    /// An expression of the host language, tied to no index.
    Plain { expr: Vec<TokenTree> },
}

/// A name given to an indexer in the header of a scope.
#[derive(Debug, PartialEq, Eq)]
pub struct RicciAliasDeclaration {
    pub index: Ident,
    pub indexer: RicciIndexer,
}

/// What an indexer is.
pub ghost enum IndexerModel {
    Direct { index: IdentModel },
    Reindexing { reindexing_name: IdentModel, indexers: Seq<IndexerModel> },
    Reverse { index: IdentModel },
    Plain { expr: Seq<TokenModel> },
}

/// What an alias declaration is.
pub ghost struct AliasModel {
    pub index: IdentModel,
    pub indexer: IndexerModel,
}

/// A value read from a sequence of tokens, with the position after it.
pub ghost struct Parsed<T> {
    pub value: T,
    pub next: int,
}

/// The model of one indexer.
pub open spec fn indexer_model(x: RicciIndexer) -> IndexerModel
    decreases x,
{
    match x {
        RicciIndexer::Direct { index } => IndexerModel::Direct { index: index@ },
        RicciIndexer::Reindexing { reindexing_name, indexers } => IndexerModel::Reindexing {
            reindexing_name: reindexing_name@,
            indexers: indexers_model(indexers@),
        },
        RicciIndexer::Reverse { index } => IndexerModel::Reverse { index: index@ },
        RicciIndexer::Plain { expr } => IndexerModel::Plain { expr: stream_model(expr@) },
    }
}

/// The models of a list of indexers, in order.
pub open spec fn indexers_model(s: Seq<RicciIndexer>) -> Seq<IndexerModel>
    decreases s,
{
    Seq::new(
        s.len(),
        |i: int|
            if 0 <= i < s.len() {
                indexer_model(s[i])
            } else {
                arbitrary()
            },
    )
}

impl View for RicciIndexer {
    type V = IndexerModel;

    open spec fn view(&self) -> IndexerModel {
        indexer_model(*self)
    }
}

impl View for RicciIndexDeclaration {
    type V = Seq<IdentModel>;

    open spec fn view(&self) -> Seq<IdentModel> {
        crate::token::idents_model(self.indexes@)
    }
}

impl View for RicciAliasDeclaration {
    type V = AliasModel;

    open spec fn view(&self) -> AliasModel {
        AliasModel { index: self.index@, indexer: self.indexer@ }
    }
}

/// Whether `name` is a word that the host language reserves, and that
/// therefore names no index and no array.
pub open spec fn is_reserved_word(name: Seq<char>) -> bool {
    ||| name == "_"@
    ||| name == "abstract"@
    ||| name == "as"@
    ||| name == "async"@
    ||| name == "await"@
    ||| name == "become"@
    ||| name == "box"@
    ||| name == "break"@
    ||| name == "const"@
    ||| name == "continue"@
    ||| name == "crate"@
    ||| name == "do"@
    ||| name == "dyn"@
    ||| name == "else"@
    ||| name == "enum"@
    ||| name == "extern"@
    ||| name == "false"@
    ||| name == "final"@
    ||| name == "fn"@
    ||| name == "for"@
    ||| name == "if"@
    ||| name == "impl"@
    ||| name == "in"@
    ||| name == "let"@
    ||| name == "loop"@
    ||| name == "macro"@
    ||| name == "match"@
    ||| name == "mod"@
    ||| name == "move"@
    ||| name == "mut"@
    ||| name == "override"@
    ||| name == "priv"@
    ||| name == "pub"@
    ||| name == "ref"@
    ||| name == "return"@
    ||| name == "Self"@
    ||| name == "self"@
    ||| name == "static"@
    ||| name == "struct"@
    ||| name == "super"@
    ||| name == "trait"@
    ||| name == "true"@
    ||| name == "try"@
    ||| name == "type"@
    ||| name == "typeof"@
    ||| name == "unsafe"@
    ||| name == "unsized"@
    ||| name == "use"@
    ||| name == "virtual"@
    ||| name == "where"@
    ||| name == "while"@
    ||| name == "yield"@
}

/// Whether the token is an identifier that may name an index or an array.
pub open spec fn is_identifier(t: TokenModel) -> bool {
    t matches TokenModel::Ident(i) && !is_reserved_word(i.name)
}

/// Whether an identifier stands at `pos`.
pub open spec fn identifier_at(s: Seq<TokenModel>, pos: int) -> bool {
    0 <= pos < s.len() && is_identifier(s[pos])
}

/// The fault of a missing piece of syntax at `pos`.
pub open spec fn missing(kind: ErrorKind, s: Seq<TokenModel>, pos: int, scope: Span) -> ErrorModel {
    ErrorModel {
        kind,
        span: span_at(s, pos, scope),
        subject: Seq::empty(),
        at_end: !(0 <= pos < s.len()),
    }
}

/// The identifier at `pos`, or the fault of its absence.
pub open spec fn expect_identifier(s: Seq<TokenModel>, pos: int, scope: Span) -> Result<
    IdentModel,
    ErrorModel,
> {
    if 0 <= pos < s.len() {
        match s[pos] {
            TokenModel::Ident(i) => if is_reserved_word(i.name) {
                Err(named_fault(ErrorKind::ExpectedIdentifier, i.span, i.name))
            } else {
                Ok(i)
            },
            _ => Err(missing(ErrorKind::ExpectedIdentifier, s, pos, scope)),
        }
    } else {
        Err(missing(ErrorKind::ExpectedIdentifier, s, pos, scope))
    }
}

/// The first position from `pos` on at which no identifier stands.
pub open spec fn identifier_run(s: Seq<TokenModel>, pos: int) -> int
    decreases s.len() - pos,
{
    if identifier_at(s, pos) {
        identifier_run(s, pos + 1)
    } else {
        pos
    }
}

/// The identifiers that stand from `from` up to, not including, `to`.
pub open spec fn identifiers(s: Seq<TokenModel>, from: int, to: int) -> Seq<IdentModel> {
    Seq::new((to - from) as nat, |i: int| s[from + i]->Ident_0)
}

/// The header `for i j ...` read at `pos`: the word `for`, then the longest
/// run of identifiers, which holds at least one.
pub open spec fn parse_index_declaration(s: Seq<TokenModel>, pos: int, scope: Span) -> Result<
    Parsed<Seq<IdentModel>>,
    ErrorModel,
> {
    if !(0 <= pos < s.len() && s[pos].is_word("for"@)) {
        Err(missing(ErrorKind::ExpectedFor, s, pos, scope))
    } else {
        match expect_identifier(s, pos + 1, scope) {
            Err(e) => Err(e),
            Ok(_) => {
                let end = identifier_run(s, pos + 1);
                Ok(Parsed { value: identifiers(s, pos + 1, end), next: end })
            },
        }
    }
}

/// The count `rest` as a number of the specification.
pub open spec fn counted(rest: Option<usize>) -> Option<nat> {
    match rest {
        Some(n) => Some(n as nat),
        None => None,
    }
}

/// The indexer `plain: <expr>` whose expression starts at `pos`, given that
/// `rest` tokens stay unread behind the expression: the expression is every
/// token before those. An expression holds at least one token; `None` tells
/// that no run of tokens from `pos` on is an expression.
pub open spec fn parse_plain(s: Seq<TokenModel>, pos: int, scope: Span, rest: Option<nat>) -> Result<
    Parsed<IndexerModel>,
    ErrorModel,
> {
    match rest {
        Some(r) => if 0 <= pos && r < s.len() - pos {
            Ok(
                Parsed {
                    value: IndexerModel::Plain { expr: s.subrange(pos, s.len() - r) },
                    next: s.len() - r,
                },
            )
        } else {
            Err(missing(ErrorKind::ExpectedExpression, s, pos, scope))
        },
        None => Err(missing(ErrorKind::ExpectedExpression, s, pos, scope)),
    }
}

/// How many tokens stay unread behind the expression of the host language
/// that starts at `pos`: the expression is the longest run of tokens from
/// `pos` on that reads as one expression, among the runs that leave `rest`
/// tokens or more unread, where `host` tells of a source text whether the
/// parser of the host language reads it as one expression. `None` where no
/// run of tokens does.
pub open spec fn unread_after(
    s: Seq<TokenModel>,
    pos: int,
    host: spec_fn(Seq<char>) -> bool,
    rest: int,
) -> Option<nat>
    decreases s.len() - pos - rest,
{
    if !(0 <= pos && 0 <= rest < s.len() - pos) {
        None
    } else if host(query_text(s, pos, s.len() - rest)) {
        Some(rest as nat)
    } else {
        unread_after(s, pos, host, rest + 1)
    }
}

/// What follows `keyword :` in an indexer, read at `pos`, where `host`
/// tells of a source text whether the parser of the host language reads it
/// as one expression.
pub open spec fn parse_keyword_reindexing_spec(
    keyword: IdentModel,
    s: Seq<TokenModel>,
    pos: int,
    scope: Span,
    host: spec_fn(Seq<char>) -> bool,
) -> Result<Parsed<IndexerModel>, ErrorModel> {
    if keyword.name == "plain"@ {
        parse_plain(s, pos, scope, unread_after(s, pos, host, 0))
    } else if keyword.name == "rev"@ {
        match expect_identifier(s, pos, scope) {
            Ok(index) => Ok(Parsed { value: IndexerModel::Reverse { index }, next: pos + 1 }),
            Err(e) => Err(e),
        }
    } else {
        Err(named_fault(ErrorKind::UnknownReindexingKeyword, keyword.span, keyword.name))
    }
}

/// The indexer read at `pos`.
pub open spec fn parse_indexer(s: Seq<TokenModel>, pos: int, scope: Span, host: spec_fn(Seq<char>) -> bool) -> Result<
    Parsed<IndexerModel>,
    ErrorModel,
>
    decreases s, s.len() - pos, 0nat,
{
    if identifier_at(s, pos) {
        let keyword = s[pos]->Ident_0;
        if pos + 1 == s.len() {
            Ok(Parsed { value: IndexerModel::Direct { index: keyword }, next: pos + 1 })
        } else if s[pos + 1].is_punct(':') {
            parse_keyword_reindexing_spec(keyword, s, pos + 2, scope, host)
        } else {
            match s[pos + 1] {
                TokenModel::Group { delimiter: Delimiter::Bracket, stream, span } => {
                    match parse_indexers(stream, 0, true, span, host) {
                        Ok(indexers) => Ok(
                            Parsed {
                                value: IndexerModel::Reindexing {
                                    reindexing_name: keyword,
                                    indexers,
                                },
                                next: pos + 2,
                            },
                        ),
                        Err(e) => Err(e),
                    }
                },
                _ => Ok(Parsed { value: IndexerModel::Direct { index: keyword }, next: pos + 1 }),
            }
        }
    } else {
        Err(plain_fault(ErrorKind::ExpectedReindexingIdentifier, span_at(s, pos, scope)))
    }
}

/// The indexers read from `pos` to the end of `s`, separated by commas;
/// `first` tells that none was read yet, so that no comma is due.
pub open spec fn parse_indexers(s: Seq<TokenModel>, pos: int, first: bool, scope: Span, host: spec_fn(Seq<char>) -> bool) -> Result<
    Seq<IndexerModel>,
    ErrorModel,
>
    decreases s, s.len() - pos, 1nat,
{
    if !(0 <= pos < s.len()) {
        Ok(Seq::empty())
    } else if !first && !s[pos].is_punct(',') {
        Err(missing(ErrorKind::ExpectedComma, s, pos, scope))
    } else {
        let start = if first {
            pos
        } else {
            pos + 1
        };
        match parse_indexer(s, start, scope, host) {
            Err(e) => Err(e),
            Ok(p) => if start < p.next <= s.len() {
                match parse_indexers(s, p.next, false, scope, host) {
                    Ok(rest) => Ok(seq![p.value] + rest),
                    Err(e) => Err(e),
                }
            } else {
                Ok(seq![p.value])
            },
        }
    }
}

/// The declaration `let k = <indexer>` read at `pos`.
pub open spec fn parse_alias_declaration(s: Seq<TokenModel>, pos: int, scope: Span, host: spec_fn(Seq<char>) -> bool) -> Result<
    Parsed<AliasModel>,
    ErrorModel,
> {
    if !(0 <= pos < s.len() && s[pos].is_word("let"@)) {
        Err(missing(ErrorKind::ExpectedLet, s, pos, scope))
    } else {
        match expect_identifier(s, pos + 1, scope) {
            Err(e) => Err(e),
            Ok(index) => if !(pos + 2 < s.len() && s[pos + 2].is_punct('=')) {
                Err(missing(ErrorKind::ExpectedEquals, s, pos + 2, scope))
            } else {
                match parse_indexer(s, pos + 3, scope, host) {
                    Ok(p) => Ok(
                        Parsed { value: AliasModel { index, indexer: p.value }, next: p.next },
                    ),
                    Err(e) => Err(e),
                }
            },
        }
    }
}

/// Whether the executable outcome `r` is the outcome `want`.
pub open spec fn indexer_outcome(
    r: Result<(RicciIndexer, usize), ParseError>,
    want: Result<Parsed<IndexerModel>, ErrorModel>,
) -> bool {
    match want {
        Ok(p) => r matches Ok(got) && got.0@ == p.value && got.1 == p.next,
        Err(e) => r matches Err(got) && got@ == e,
    }
}

/// Whether `name` is spelled `word`.
fn spelled(name: &String, word: &str) -> (b: bool)
    ensures
        b == (name@ == word@),
{
    *name == String::from_str(word)
}

/// Whether `name` is a word that the host language reserves.
pub fn reserved_word(name: &String) -> (b: bool)
    ensures
        b == is_reserved_word(name@),
{
    spelled(name, "_")
        || spelled(name, "abstract")
        || spelled(name, "as")
        || spelled(name, "async")
        || spelled(name, "await")
        || spelled(name, "become")
        || spelled(name, "box")
        || spelled(name, "break")
        || spelled(name, "const")
        || spelled(name, "continue")
        || spelled(name, "crate")
        || spelled(name, "do")
        || spelled(name, "dyn")
        || spelled(name, "else")
        || spelled(name, "enum")
        || spelled(name, "extern")
        || spelled(name, "false")
        || spelled(name, "final")
        || spelled(name, "fn")
        || spelled(name, "for")
        || spelled(name, "if")
        || spelled(name, "impl")
        || spelled(name, "in")
        || spelled(name, "let")
        || spelled(name, "loop")
        || spelled(name, "macro")
        || spelled(name, "match")
        || spelled(name, "mod")
        || spelled(name, "move")
        || spelled(name, "mut")
        || spelled(name, "override")
        || spelled(name, "priv")
        || spelled(name, "pub")
        || spelled(name, "ref")
        || spelled(name, "return")
        || spelled(name, "Self")
        || spelled(name, "self")
        || spelled(name, "static")
        || spelled(name, "struct")
        || spelled(name, "super")
        || spelled(name, "trait")
        || spelled(name, "true")
        || spelled(name, "try")
        || spelled(name, "type")
        || spelled(name, "typeof")
        || spelled(name, "unsafe")
        || spelled(name, "unsized")
        || spelled(name, "use")
        || spelled(name, "virtual")
        || spelled(name, "where")
        || spelled(name, "while")
        || spelled(name, "yield")
}

/// Whether an identifier that may name an index or an array stands at `pos`.
pub fn peek_identifier(tokens: &Vec<TokenTree>, pos: usize) -> (b: bool)
    ensures
        b == identifier_at(stream_model(tokens@), pos as int),
{
    proof {
        lemma_stream_model_index(tokens@);
    }
    if pos < tokens.len() {
        match &tokens[pos] {
            TokenTree::Ident(i) => !reserved_word(&i.name),
            _ => false,
        }
    } else {
        false
    }
}

/// Whether the word `word` stands at `pos`.
pub fn peek_word(tokens: &Vec<TokenTree>, pos: usize, word: &str) -> (b: bool)
    ensures
        b == (pos < tokens.len() && stream_model(tokens@)[pos as int].is_word(word@)),
{
    proof {
        lemma_stream_model_index(tokens@);
    }
    if pos < tokens.len() {
        match &tokens[pos] {
            TokenTree::Ident(i) => i.is(word),
            _ => false,
        }
    } else {
        false
    }
}

/// Whether the punctuation character `c` stands at `pos`.
pub fn peek_punct(tokens: &Vec<TokenTree>, pos: usize, c: char) -> (b: bool)
    ensures
        b == (pos < tokens.len() && stream_model(tokens@)[pos as int].is_punct(c)),
{
    proof {
        lemma_stream_model_index(tokens@);
    }
    if pos < tokens.len() {
        match &tokens[pos] {
            TokenTree::Punct(p) => p.ch == c,
            _ => false,
        }
    } else {
        false
    }
}

/// The source position of the token at `pos`, or `scope` at the end.
pub fn position(tokens: &Vec<TokenTree>, pos: usize, scope: Span) -> (span: Span)
    ensures
        span == span_at(stream_model(tokens@), pos as int, scope),
{
    proof {
        lemma_stream_model_index(tokens@);
    }
    if pos < tokens.len() {
        tokens[pos].span()
    } else {
        scope
    }
}

/// The fault of a missing piece of syntax at `pos`.
pub fn fault_at(kind: ErrorKind, tokens: &Vec<TokenTree>, pos: usize, scope: Span) -> (e:
    ParseError)
    ensures
        e@ == missing(kind, stream_model(tokens@), pos as int, scope),
{
    proof {
        lemma_stream_model_index(tokens@);
    }
    ParseError {
        kind,
        span: position(tokens, pos, scope),
        subject: String::new(),
        at_end: pos >= tokens.len(),
    }
}

/// Reads the identifier at `pos`.
pub fn read_identifier(tokens: &Vec<TokenTree>, pos: usize, scope: Span) -> (r: Result<
    Ident,
    ParseError,
>)
    ensures
        match expect_identifier(stream_model(tokens@), pos as int, scope) {
            Ok(i) => r matches Ok(got) && got@ == i && pos < tokens.len(),
            Err(e) => r matches Err(got) && got@ == e,
        },
{
    proof {
        lemma_stream_model_index(tokens@);
    }
    if pos < tokens.len() {
        match &tokens[pos] {
            TokenTree::Ident(i) => {
                if reserved_word(&i.name) {
                    Err(ParseError::about(ErrorKind::ExpectedIdentifier, i.span, &i.name))
                } else {
                    Ok(i.clone())
                }
            },
            _ => Err(fault_at(ErrorKind::ExpectedIdentifier, tokens, pos, scope)),
        }
    } else {
        Err(fault_at(ErrorKind::ExpectedIdentifier, tokens, pos, scope))
    }
}

/// Asks the parser of the host language whether `source` is one
/// expression: `syn::parse_str` lexes the text and reads it as a
/// `syn::Expr`, which has to take all of it. Nothing is claimed of the
/// answer.
#[verifier::external_body]
fn host_reads_expression(source: &str) -> (reads: bool) {
    syn::parse_str::<syn::Expr>(source).is_ok()
}

/// One answer of the parser of the host language: whether it read the
/// source text `source` as one expression.
#[derive(Debug)]
pub struct HostAnswer {
    pub source: String,
    pub reads: bool,
}

/// What an answer is.
pub ghost struct AnswerModel {
    pub source: Seq<char>,
    pub reads: bool,
}

impl View for HostAnswer {
    type V = AnswerModel;

    open spec fn view(&self) -> AnswerModel {
        AnswerModel { source: self.source@, reads: self.reads }
    }
}

/// The answers that the parser of the host language has given while an
/// expression is read. A text is asked once: the answer to it is kept and
/// given again, so that within one reading the answers are a function of the
/// text, whatever the parser of the host language would say a second time.
#[derive(Debug)]
pub struct HostAnswers {
    answers: Vec<HostAnswer>,
}

impl View for HostAnswers {
    type V = Seq<AnswerModel>;

    closed spec fn view(&self) -> Seq<AnswerModel> {
        Seq::new(self.answers@.len(), |i: int| self.answers@[i]@)
    }
}

/// Whether `host` gives every answer of `answers`.
pub open spec fn agrees(host: spec_fn(Seq<char>) -> bool, answers: Seq<AnswerModel>) -> bool {
    forall|i: int| 0 <= i < answers.len() ==> host((#[trigger] answers[i]).source) == answers[i].reads
}

/// Whether no text was asked twice.
pub open spec fn asked_once(answers: Seq<AnswerModel>) -> bool {
    forall|i: int, j: int|
        0 <= i < j < answers.len() ==> (#[trigger] answers[i]).source != (
        #[trigger] answers[j]).source
}

/// Whether `later` holds the answers of `earlier`, in their places, and
/// perhaps more behind them.
pub open spec fn grown(earlier: Seq<AnswerModel>, later: Seq<AnswerModel>) -> bool {
    &&& earlier.len() <= later.len()
    &&& forall|i: int| 0 <= i < earlier.len() ==> later[i] == #[trigger] earlier[i]
}

/// Whether the answers `later` keep the answers `earlier`, and keep that no
/// text was asked twice.
pub open spec fn kept(earlier: Seq<AnswerModel>, later: Seq<AnswerModel>) -> bool {
    grown(earlier, later) && (asked_once(earlier) ==> asked_once(later))
}

/// The answer that `answers` holds for the text `source`, from `from` on;
/// no where it holds none.
pub open spec fn answer_of(answers: Seq<AnswerModel>, source: Seq<char>, from: int) -> bool
    decreases answers.len() - from,
{
    if !(0 <= from < answers.len()) {
        false
    } else if answers[from].source == source {
        answers[from].reads
    } else {
        answer_of(answers, source, from + 1)
    }
}

/// The answers as a function of the text.
pub open spec fn host_of(answers: Seq<AnswerModel>) -> spec_fn(Seq<char>) -> bool {
    |source: Seq<char>| answer_of(answers, source, 0)
}

/// The answer that is looked up for the text of an answer that stands behind
/// `from` is that answer, where no text was asked twice.
pub proof fn lemma_answer_of(answers: Seq<AnswerModel>, i: int, from: int)
    requires
        asked_once(answers),
        0 <= from <= i < answers.len(),
    ensures
        answer_of(answers, answers[i].source, from) == answers[i].reads,
    decreases i - from,
{
    if from < i {
        lemma_answer_of(answers, i, from + 1);
    }
}

/// Where no text was asked twice, the answers are a function of the text.
pub proof fn lemma_host_of_agrees(answers: Seq<AnswerModel>)
    requires
        asked_once(answers),
    ensures
        agrees(host_of(answers), answers),
{
    assert forall|i: int| 0 <= i < answers.len() implies host_of(answers)(
        (#[trigger] answers[i]).source,
    ) == answers[i].reads by {
        lemma_answer_of(answers, i, 0);
    }
}

impl HostAnswers {
    /// No answers yet.
    pub fn new() -> (r: Self)
        ensures
            r@ == Seq::<AnswerModel>::empty(),
            asked_once(r@),
    {
        let r = HostAnswers { answers: Vec::new() };
        assert(r@ =~= Seq::<AnswerModel>::empty());
        r
    }

    /// Whether the parser of the host language reads `source` as one
    /// expression: the answer that was given to this text before, or else
    /// what the parser says now, which is kept.
    pub fn ask(&mut self, source: String) -> (reads: bool)
        ensures
            kept(old(self)@, final(self)@),
            forall|host: spec_fn(Seq<char>) -> bool| #[trigger]
                agrees(host, final(self)@) ==> agrees(host, old(self)@) && host(source@) == reads,
    {
        let mut i: usize = 0;
        while i < self.answers.len()
            invariant
                i <= self.answers.len(),
                *self == *old(self),
                forall|j: int| 0 <= j < i ==> (#[trigger] self@[j]).source != source@,
            decreases self.answers.len() - i,
        {
            if self.answers[i].source == source {
                let reads = self.answers[i].reads;
                assert(self@[i as int].source == source@);
                return reads;
            }
            i += 1;
        }
        let reads = host_reads_expression(source.as_str());
        self.answers.push(HostAnswer { source, reads });
        proof {
            let last = old(self)@.len() as int;
            assert(self@ =~= old(self)@.push(AnswerModel { source: source@, reads }));
            assert forall|host: spec_fn(Seq<char>) -> bool| #[trigger]
                agrees(host, self@) implies agrees(host, old(self)@) && host(source@) == reads by {
                assert(self@[last].source == source@);
                assert forall|k: int| 0 <= k < old(self)@.len() implies host(
                    (#[trigger] old(self)@[k]).source,
                ) == old(self)@[k].reads by {
                    assert(self@[k] == old(self)@[k]);
                }
            }
            if asked_once(old(self)@) {
                assert forall|a: int, b: int| 0 <= a < b < self@.len() implies (#[trigger] self@[a]).source
                    != (#[trigger] self@[b]).source by {
                    assert(self@[a] == old(self)@[a]);
                    if b < last {
                        assert(self@[b] == old(self)@[b]);
                    }
                }
            }
        }
        reads
    }
}

impl RicciIndexDeclaration {
    /// Reads the header `for i j ...` at `pos`, and tells where it ends.
    pub fn parse(tokens: &Vec<TokenTree>, pos: usize, scope: Span) -> (r: Result<
        (RicciIndexDeclaration, usize),
        ParseError,
    >)
        requires
            pos <= tokens.len(),
        ensures
            match parse_index_declaration(stream_model(tokens@), pos as int, scope) {
                Ok(p) => r matches Ok(got) && got.0@ == p.value && got.1 == p.next && pos
                    < got.1 <= tokens.len(),
                Err(e) => r matches Err(got) && got@ == e,
            },
    {
        let ghost s = stream_model(tokens@);
        proof {
            lemma_stream_model_index(tokens@);
        }
        if !peek_word(tokens, pos, "for") {
            return Err(fault_at(ErrorKind::ExpectedFor, tokens, pos, scope));
        }
        let first = match read_identifier(tokens, pos + 1, scope) {
            Ok(i) => i,
            Err(e) => {
                return Err(e);
            },
        };
        let mut indexes: Vec<Ident> = Vec::new();
        indexes.push(first);
        let mut next: usize = pos + 2;
        while peek_identifier(tokens, next)
            invariant
                pos + 2 <= next <= tokens.len(),
                s == stream_model(tokens@),
                s.len() == tokens.len(),
                indexes.len() == next - (pos + 1),
                identifier_run(s, pos + 1) == identifier_run(s, next as int),
                forall|k: int|
                    0 <= k < indexes.len() ==> #[trigger] indexes[k]@ == s[pos + 1 + k]->Ident_0,
            decreases tokens.len() - next,
        {
            let index = match read_identifier(tokens, next, scope) {
                Ok(i) => i,
                Err(e) => {
                    return Err(e);
                },
            };
            indexes.push(index);
            next += 1;
        }
        let declaration = RicciIndexDeclaration { indexes };
        assert(declaration@ =~= identifiers(s, pos + 1, next as int));
        Ok((declaration, next))
    }
}

impl RicciIndexer {
    /// The indexer `plain: <expr>` whose expression starts at `pos`, where
    /// `rest` tokens stay unread behind the expression; `None` tells that no
    /// run of tokens from `pos` on is an expression.
    pub fn plain(tokens: &Vec<TokenTree>, pos: usize, scope: Span, rest: Option<usize>) -> (r:
        Result<(RicciIndexer, usize), ParseError>)
        requires
            pos <= tokens.len(),
        ensures
            indexer_outcome(
                r,
                parse_plain(stream_model(tokens@), pos as int, scope, counted(rest)),
            ),
            r matches Ok(got) ==> pos < got.1 <= tokens.len(),
    {
        proof {
            lemma_stream_model_index(tokens@);
        }
        match rest {
            Some(unread) => {
                if unread < tokens.len() - pos {
                    let end: usize = tokens.len() - unread;
                    Ok((RicciIndexer::Plain { expr: clone_range(tokens, pos, end) }, end))
                } else {
                    Err(fault_at(ErrorKind::ExpectedExpression, tokens, pos, scope))
                }
            },
            None => Err(fault_at(ErrorKind::ExpectedExpression, tokens, pos, scope)),
        }
    }

    /// Reads the indexer at `pos`, and tells where it ends. Where an
    /// expression of the host language ends is asked of `asked`.
    pub fn parse(tokens: &Vec<TokenTree>, pos: usize, scope: Span, asked: &mut HostAnswers) -> (r:
        Result<(RicciIndexer, usize), ParseError>)
        requires
            pos <= tokens.len(),
        ensures
            kept(old(asked)@, final(asked)@),
            forall|host: spec_fn(Seq<char>) -> bool| #[trigger]
                agrees(host, final(asked)@) ==> agrees(host, old(asked)@) && indexer_outcome(
                    r,
                    parse_indexer(stream_model(tokens@), pos as int, scope, host),
                ),
            r matches Ok(got) ==> pos < got.1 <= tokens.len(),
        decreases tokens, tokens.len() - pos, 0nat,
    {
        let ghost s = stream_model(tokens@);
        proof {
            lemma_stream_model_index(tokens@);
        }
        if !peek_identifier(tokens, pos) {
            return Err(
                ParseError::new(
                    ErrorKind::ExpectedReindexingIdentifier,
                    position(tokens, pos, scope),
                ),
            );
        }
        let keyword = match &tokens[pos] {
            TokenTree::Ident(i) => i.clone(),
            _ => {
                return Err(
                    ParseError::new(
                        ErrorKind::ExpectedReindexingIdentifier,
                        position(tokens, pos, scope),
                    ),
                );
            },
        };
        if pos + 1 == tokens.len() {
            Ok((RicciIndexer::Direct { index: keyword }, pos + 1))
        } else if peek_punct(tokens, pos + 1, ':') {
            parse_keyword_reindexing(keyword, tokens, pos + 2, scope, asked)
        } else {
            match &tokens[pos + 1] {
                TokenTree::Group(group) => {
                    if matches!(group.delimiter, Delimiter::Bracket) {
                        match parse_external_reindexing(
                            keyword,
                            &group.stream,
                            group.span,
                            asked,
                        ) {
                            Ok(indexer) => Ok((indexer, pos + 2)),
                            Err(e) => Err(e),
                        }
                    } else {
                        Ok((RicciIndexer::Direct { index: keyword }, pos + 1))
                    }
                },
                _ => Ok((RicciIndexer::Direct { index: keyword }, pos + 1)),
            }
        }
    }
}

/// Reads what follows `keyword :` in an indexer. After `plain` comes an
/// expression of the host language: the longest run of tokens that the
/// parser of the host language, asked through `asked`, reads as one
/// expression. The indexer is then the one that `RicciIndexer::plain` gives
/// for the number of tokens that stay unread.
pub fn parse_keyword_reindexing(
    keyword_token: Ident,
    tokens: &Vec<TokenTree>,
    pos: usize,
    scope: Span,
    asked: &mut HostAnswers,
) -> (r: Result<(RicciIndexer, usize), ParseError>)
    requires
        pos <= tokens.len(),
    ensures
        kept(old(asked)@, final(asked)@),
        forall|host: spec_fn(Seq<char>) -> bool| #[trigger]
            agrees(host, final(asked)@) ==> agrees(host, old(asked)@) && indexer_outcome(
                r,
                parse_keyword_reindexing_spec(
                    keyword_token@,
                    stream_model(tokens@),
                    pos as int,
                    scope,
                    host,
                ),
            ),
        keyword_token@.name != "plain"@ ==> final(asked)@ == old(asked)@,
        r matches Ok(got) ==> pos < got.1 <= tokens.len(),
{
    if keyword_token.is("plain") {
        let ghost s = stream_model(tokens@);
        proof {
            lemma_stream_model_index(tokens@);
        }
        let mut rest: usize = 0;
        while rest < tokens.len() - pos
            invariant
                pos <= tokens.len(),
                rest <= tokens.len() - pos,
                s == stream_model(tokens@),
                s.len() == tokens.len(),
                keyword_token@.name == "plain"@,
                kept(old(asked)@, asked@),
                forall|host: spec_fn(Seq<char>) -> bool| #[trigger]
                    agrees(host, asked@) ==> agrees(host, old(asked)@) && unread_after(
                        s,
                        pos as int,
                        host,
                        0,
                    ) == unread_after(s, pos as int, host, rest as int),
            decreases tokens.len() - pos - rest,
        {
            let query = put_all_in_brackets(tokens, pos, tokens.len() - rest);
            let source = stream_to_string(&query);
            if asked.ask(source) {
                return RicciIndexer::plain(tokens, pos, scope, Some(rest));
            }
            rest += 1;
        }
        RicciIndexer::plain(tokens, pos, scope, None)
    } else if keyword_token.is("rev") {
        match read_identifier(tokens, pos, scope) {
            Ok(index) => Ok((RicciIndexer::Reverse { index }, pos + 1)),
            Err(e) => Err(e),
        }
    } else {
        Err(
            ParseError::about(
                ErrorKind::UnknownReindexingKeyword,
                keyword_token.span,
                &keyword_token.name,
            ),
        )
    }
}

/// Reads the indexers inside the brackets that follow `reindexing_name`.
pub fn parse_external_reindexing(
    reindexing_name: Ident,
    content: &Vec<TokenTree>,
    scope: Span,
    asked: &mut HostAnswers,
) -> (r: Result<RicciIndexer, ParseError>)
    ensures
        kept(old(asked)@, final(asked)@),
        forall|host: spec_fn(Seq<char>) -> bool| #[trigger]
            agrees(host, final(asked)@) ==> agrees(host, old(asked)@) && match parse_indexers(
                stream_model(content@),
                0,
                true,
                scope,
                host,
            ) {
                Ok(indexers) => r matches Ok(got) && got@ == (IndexerModel::Reindexing {
                    reindexing_name: reindexing_name@,
                    indexers,
                }),
                Err(e) => r matches Err(got) && got@ == e,
            },
    decreases content, content.len() + 1, 0nat,
{
    match parse_indexer_list(content, scope, asked) {
        Ok(indexers) => Ok(RicciIndexer::Reindexing { reindexing_name, indexers }),
        Err(e) => Err(e),
    }
}

/// Whether the executable outcome `r` is the outcome `want` of reading a
/// list of indexers.
pub open spec fn indexers_outcome(
    r: Result<Vec<RicciIndexer>, ParseError>,
    want: Result<Seq<IndexerModel>, ErrorModel>,
) -> bool {
    match want {
        Ok(indexers) => r matches Ok(got) && indexers_model(got@) == indexers,
        Err(e) => r matches Err(got) && got@ == e,
    }
}

/// Whether reading the whole list comes to reading what is left of it at
/// `pos` behind the indexers `read`.
pub open spec fn indexers_so_far(
    s: Seq<TokenModel>,
    pos: int,
    first: bool,
    scope: Span,
    host: spec_fn(Seq<char>) -> bool,
    read: Seq<IndexerModel>,
) -> bool {
    match parse_indexers(s, pos, first, scope, host) {
        Ok(rest) => parse_indexers(s, 0, true, scope, host) == Ok::<Seq<IndexerModel>, ErrorModel>(
            read + rest,
        ),
        Err(e) => parse_indexers(s, 0, true, scope, host) == Err::<Seq<IndexerModel>, ErrorModel>(
            e,
        ),
    }
}

/// Reads the indexers, separated by commas, that fill `content`.
pub fn parse_indexer_list(content: &Vec<TokenTree>, scope: Span, asked: &mut HostAnswers) -> (r:
    Result<Vec<RicciIndexer>, ParseError>)
    ensures
        kept(old(asked)@, final(asked)@),
        forall|host: spec_fn(Seq<char>) -> bool| #[trigger]
            agrees(host, final(asked)@) ==> agrees(host, old(asked)@) && indexers_outcome(
                r,
                parse_indexers(stream_model(content@), 0, true, scope, host),
            ),
    decreases content, content.len(), 1nat,
{
    let ghost s = stream_model(content@);
    proof {
        lemma_stream_model_index(content@);
    }
    let mut indexers: Vec<RicciIndexer> = Vec::new();
    let mut first = true;
    let mut pos: usize = 0;
    assert(indexers_model(indexers@) =~= Seq::<IndexerModel>::empty());
    assert forall|host: spec_fn(Seq<char>) -> bool| #[trigger] agrees(host, asked@) implies indexers_so_far(
        s,
        0,
        true,
        scope,
        host,
        indexers_model(indexers@),
    ) by {
        match parse_indexers(s, 0, true, scope, host) {
            Ok(rest) => {
                assert(indexers_model(indexers@) + rest =~= rest);
            },
            Err(_) => {},
        }
    }
    while pos < content.len()
        invariant
            pos <= content.len(),
            s == stream_model(content@),
            s.len() == content.len(),
            first ==> pos == 0,
            kept(old(asked)@, asked@),
            forall|host: spec_fn(Seq<char>) -> bool| #[trigger]
                agrees(host, asked@) ==> agrees(host, old(asked)@) && indexers_so_far(
                    s,
                    pos as int,
                    first,
                    scope,
                    host,
                    indexers_model(indexers@),
                ),
        decreases content.len() - pos,
    {
        let start: usize = if first {
            pos
        } else {
            if !peek_punct(content, pos, ',') {
                return Err(fault_at(ErrorKind::ExpectedComma, content, pos, scope));
            }
            pos + 1
        };
        let ghost before = indexers_model(indexers@);
        let ghost asked_before = asked@;
        let ghost was_first = first;
        let ghost was_at = pos;
        match RicciIndexer::parse(content, start, scope, asked) {
            Err(e) => {
                return Err(e);
            },
            Ok((indexer, next)) => {
                indexers.push(indexer);
                proof {
                    assert(indexers_model(indexers@) =~= before + seq![indexer@]);
                    assert forall|host: spec_fn(Seq<char>) -> bool| #[trigger] agrees(host, asked@) implies agrees(
                        host,
                        old(asked)@,
                    ) && indexers_so_far(
                        s,
                        next as int,
                        false,
                        scope,
                        host,
                        indexers_model(indexers@),
                    ) by {
                        assert(agrees(host, asked_before));
                        assert(indexers_so_far(s, was_at as int, was_first, scope, host, before));
                        match parse_indexers(s, next as int, false, scope, host) {
                            Ok(rest) => {
                                assert(before + (seq![indexer@] + rest) =~= indexers_model(
                                    indexers@,
                                ) + rest);
                            },
                            Err(_) => {},
                        }
                    }
                }
                pos = next;
                first = false;
            },
        }
    }
    proof {
        assert(indexers_model(indexers@) + Seq::<IndexerModel>::empty() =~= indexers_model(
            indexers@,
        ));
    }
    Ok(indexers)
}

/// Whether the executable outcome `r` is the outcome `want` of reading an
/// alias declaration.
pub open spec fn alias_outcome(
    r: Result<(RicciAliasDeclaration, usize), ParseError>,
    want: Result<Parsed<AliasModel>, ErrorModel>,
) -> bool {
    match want {
        Ok(p) => r matches Ok(got) && got.0@ == p.value && got.1 == p.next,
        Err(e) => r matches Err(got) && got@ == e,
    }
}

impl RicciAliasDeclaration {
    /// Reads the declaration `let k = <indexer>` at `pos`, and tells where it
    /// ends.
    pub fn parse(tokens: &Vec<TokenTree>, pos: usize, scope: Span, asked: &mut HostAnswers) -> (r:
        Result<(RicciAliasDeclaration, usize), ParseError>)
        requires
            pos <= tokens.len(),
        ensures
            kept(old(asked)@, final(asked)@),
            forall|host: spec_fn(Seq<char>) -> bool| #[trigger]
                agrees(host, final(asked)@) ==> agrees(host, old(asked)@) && alias_outcome(
                    r,
                    parse_alias_declaration(stream_model(tokens@), pos as int, scope, host),
                ),
            r matches Ok(got) ==> pos < got.1 <= tokens.len(),
    {
        if !peek_word(tokens, pos, "let") {
            return Err(fault_at(ErrorKind::ExpectedLet, tokens, pos, scope));
        }
        let index = match read_identifier(tokens, pos + 1, scope) {
            Ok(i) => i,
            Err(e) => {
                return Err(e);
            },
        };
        if !peek_punct(tokens, pos + 2, '=') {
            return Err(fault_at(ErrorKind::ExpectedEquals, tokens, pos + 2, scope));
        }
        match RicciIndexer::parse(tokens, pos + 3, scope, asked) {
            Ok((indexer, next)) => Ok((RicciAliasDeclaration { index, indexer }, next)),
            Err(e) => Err(e),
        }
    }
}

/// What was read, provided that it took every token of `s`; the fault of
/// the first token left over otherwise.
pub open spec fn complete<T>(read: Result<Parsed<T>, ErrorModel>, s: Seq<TokenModel>) -> Result<
    T,
    ErrorModel,
> {
    match read {
        Ok(p) => if p.next == s.len() {
            Ok(p.value)
        } else {
            Err(missing(ErrorKind::UnexpectedToken, s, p.next, Span::CallSite))
        },
        Err(e) => Err(e),
    }
}

impl RicciIndexDeclaration {
    /// Reads the header that the whole of `tokens` holds.
    pub fn from_tokens(tokens: &Vec<TokenTree>) -> (r: Result<RicciIndexDeclaration, ParseError>)
        ensures
            match complete(
                parse_index_declaration(stream_model(tokens@), 0, Span::CallSite),
                stream_model(tokens@),
            ) {
                Ok(d) => r matches Ok(got) && got@ == d,
                Err(e) => r matches Err(got) && got@ == e,
            },
    {
        proof {
            lemma_stream_model_index(tokens@);
        }
        match RicciIndexDeclaration::parse(tokens, 0, Span::CallSite) {
            Ok((declaration, next)) => {
                if next == tokens.len() {
                    Ok(declaration)
                } else {
                    Err(fault_at(ErrorKind::UnexpectedToken, tokens, next, Span::CallSite))
                }
            },
            Err(e) => Err(e),
        }
    }
}

impl RicciAliasDeclaration {
    /// Reads the alias declaration that the whole of `tokens` holds. The
    /// outcome is the one that the grammar gives for the tokens and for the
    /// answers of the parser of the host language, which are a function of
    /// the text that it was asked about.
    pub fn from_tokens(tokens: &Vec<TokenTree>) -> (r: Result<RicciAliasDeclaration, ParseError>)
        ensures
            exists|host: spec_fn(Seq<char>) -> bool|
                match #[trigger] complete(
                    parse_alias_declaration(stream_model(tokens@), 0, Span::CallSite, host),
                    stream_model(tokens@),
                ) {
                    Ok(d) => r matches Ok(got) && got@ == d,
                    Err(e) => r matches Err(got) && got@ == e,
                },
    {
        proof {
            lemma_stream_model_index(tokens@);
        }
        let mut asked = HostAnswers::new();
        let read = RicciAliasDeclaration::parse(tokens, 0, Span::CallSite, &mut asked);
        let ghost host = host_of(asked@);
        proof {
            lemma_host_of_agrees(asked@);
            assert(agrees(host, asked@));
        }
        let r = match read {
            Ok((declaration, next)) => {
                if next == tokens.len() {
                    Ok(declaration)
                } else {
                    Err(fault_at(ErrorKind::UnexpectedToken, tokens, next, Span::CallSite))
                }
            },
            Err(e) => Err(e),
        };
        proof {
            let want = complete(
                parse_alias_declaration(stream_model(tokens@), 0, Span::CallSite, host),
                stream_model(tokens@),
            );
            assert(match want {
                Ok(d) => r matches Ok(got) && got@ == d,
                Err(e) => r matches Err(got) && got@ == e,
            });
        }
        r
    }
}

/// The text of one indexer. Every piece is preceded by one space.
pub open spec fn indexer_text(x: IndexerModel) -> Seq<char>
    decreases x,
{
    match x {
        IndexerModel::Direct { index } => " "@ + index.name,
        IndexerModel::Reindexing { reindexing_name, indexers } => " "@ + reindexing_name.name
            + " \u{2987}"@ + indexers_text(indexers) + " \u{2988}"@,
        IndexerModel::Reverse { index } => " \u{21ba} "@ + index.name,
        IndexerModel::Plain { expr } => " \u{ab} "@ + stream_text(expr) + " \u{bb}"@,
    }
}

/// The text of a list of indexers, separated by ` ,`.
pub open spec fn indexers_text(s: Seq<IndexerModel>) -> Seq<char>
    decreases s,
{
    if s.len() == 0 {
        Seq::empty()
    } else {
        indexers_text(s.drop_last()) + (if s.len() > 1 {
            " ,"@
        } else {
            Seq::empty()
        }) + indexer_text(s.last())
    }
}

/// The names of `s`, each preceded by one space.
pub open spec fn names_text(s: Seq<IdentModel>) -> Seq<char>
    decreases s.len(),
{
    if s.len() == 0 {
        Seq::empty()
    } else {
        names_text(s.drop_last()) + " "@ + s.last().name
    }
}

/// The text of the header of a scope.
pub open spec fn index_declaration_text(d: Seq<IdentModel>) -> Seq<char> {
    "\u{2200}"@ + names_text(d)
}

/// The text of an alias declaration.
pub open spec fn alias_text(a: AliasModel) -> Seq<char> {
    "\u{2219} "@ + a.index.name + " \u{2254}"@ + indexer_text(a.indexer)
}

/// The model of the first `n + 1` indexers is the model of the first `n`,
/// followed by the model of indexer `n`.
pub proof fn lemma_indexers_model_take(s: Seq<RicciIndexer>, n: int)
    requires
        0 <= n < s.len(),
    ensures
        indexers_model(s.take(n + 1)) == indexers_model(s.take(n)).push(indexer_model(s[n])),
        indexers_model(s.take(n + 1)).drop_last() == indexers_model(s.take(n)),
        indexers_model(s)[n] == indexer_model(s[n]),
        indexers_model(s).len() == s.len(),
        indexers_model(s.take(s.len() as int)) == indexers_model(s),
{
    assert(indexers_model(s.take(n + 1)) =~= indexers_model(s.take(n)).push(indexer_model(s[n])));
    assert(indexers_model(s.take(n + 1)).drop_last() =~= indexers_model(s.take(n)));
    assert(s.take(s.len() as int) =~= s);
}

/// Appends the text of `indexers` to `out`.
pub fn write_indexers(indexers: &Vec<RicciIndexer>, out: &mut String)
    ensures
        final(out)@ == old(out)@ + indexers_text(indexers_model(indexers@)),
    decreases indexers, 1nat,
{
    let mut i: usize = 0;
    assert(indexers_model(indexers@.take(0)) =~= Seq::<IndexerModel>::empty());
    assert(out@ =~= old(out)@ + indexers_text(indexers_model(indexers@.take(0))));
    while i < indexers.len()
        invariant
            i <= indexers.len(),
            out@ == old(out)@ + indexers_text(indexers_model(indexers@.take(i as int))),
        decreases indexers.len() - i,
    {
        proof {
            lemma_indexers_model_take(indexers@, i as int);
        }
        let ghost before = out@;
        if i != 0 {
            out.append(" ,");
        }
        indexers[i].fmt(out);
        proof {
            let next = indexers_model(indexers@.take(i + 1));
            assert(out@ =~= old(out)@ + (indexers_text(next.drop_last()) + (if next.len() > 1 {
                " ,"@
            } else {
                Seq::empty()
            }) + indexer_text(next.last())));
        }
        i += 1;
    }
    assert(indexers@.take(i as int) =~= indexers@);
}

impl RicciIndexer {
    /// Appends the text of the indexer to `out`.
    pub fn fmt(&self, out: &mut String)
        ensures
            final(out)@ == old(out)@ + indexer_text(self@),
        decreases self, 0nat,
    {
        let ghost before = out@;
        match self {
            RicciIndexer::Direct { index } => {
                out.append(" ");
                out.append(index.name.as_str());
            },
            RicciIndexer::Reindexing { reindexing_name, indexers } => {
                out.append(" ");
                out.append(reindexing_name.name.as_str());
                out.append(" \u{2987}");
                write_indexers(indexers, out);
                out.append(" \u{2988}");
            },
            RicciIndexer::Reverse { index } => {
                out.append(" \u{21ba} ");
                out.append(index.name.as_str());
            },
            RicciIndexer::Plain { expr } => {
                out.append(" \u{ab} ");
                write_stream(expr, out);
                out.append(" \u{bb}");
            },
        }
        assert(out@ =~= before + indexer_text(self@));
    }

    /// The text of the indexer.
    pub fn to_string(&self) -> (text: String)
        ensures
            text@ == indexer_text(self@),
    {
        let mut out = String::new();
        self.fmt(&mut out);
        assert(out@ =~= indexer_text(self@));
        out
    }
}

impl RicciIndexDeclaration {
    /// Appends the text of the header to `out`.
    pub fn fmt(&self, out: &mut String)
        ensures
            final(out)@ == old(out)@ + index_declaration_text(self@),
    {
        out.append("\u{2200}");
        let ghost before = out@;
        let mut i: usize = 0;
        assert(self@.take(0) =~= Seq::<IdentModel>::empty());
        assert(out@ =~= before + names_text(self@.take(0)));
        while i < self.indexes.len()
            invariant
                i <= self.indexes.len(),
                self@.len() == self.indexes.len(),
                out@ == before + names_text(self@.take(i as int)),
            decreases self.indexes.len() - i,
        {
            proof {
                let next = self@.take(i + 1);
                assert(next.drop_last() =~= self@.take(i as int));
                assert(next.last() == self.indexes[i as int]@);
            }
            out.append(" ");
            out.append(self.indexes[i].name.as_str());
            proof {
                let next = self@.take(i + 1);
                assert(out@ =~= before + (names_text(next.drop_last()) + " "@ + next.last().name));
            }
            i += 1;
        }
        assert(self@.take(i as int) =~= self@);
        assert(out@ =~= old(out)@ + index_declaration_text(self@));
    }

    /// The text of the header.
    pub fn to_string(&self) -> (text: String)
        ensures
            text@ == index_declaration_text(self@),
    {
        let mut out = String::new();
        self.fmt(&mut out);
        assert(out@ =~= index_declaration_text(self@));
        out
    }
}

impl RicciAliasDeclaration {
    /// Appends the text of the declaration to `out`.
    pub fn fmt(&self, out: &mut String)
        ensures
            final(out)@ == old(out)@ + alias_text(self@),
    {
        out.append("\u{2219} ");
        out.append(self.index.name.as_str());
        out.append(" \u{2254}");
        self.indexer.fmt(out);
        assert(out@ =~= old(out)@ + alias_text(self@));
    }

    /// The text of the declaration.
    pub fn to_string(&self) -> (text: String)
        ensures
            text@ == alias_text(self@),
    {
        let mut out = String::new();
        self.fmt(&mut out);
        assert(out@ =~= alias_text(self@));
        out
    }
}

} // verus!
