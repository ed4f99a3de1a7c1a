//! Lexical units: the tokens that the host's lexer supplies and that code
//! generation hands back.
//!
//! A token is an identifier, a punctuation character, a literal, or a
//! delimited group holding a sequence of tokens. Every token carries the
//! source position it came from, so that a diagnostic can point at it.
//!
//! Executable tokens own their text (`String`, `Vec`). Contracts speak of
//! their mathematical models (`IdentModel`, `TokenModel`), in which text is a
//! `Seq<char>` and a stream is a `Seq<TokenModel>`.
use vstd::prelude::*;

verus! {

/// A source position.
#[derive(Clone, Copy, Debug, PartialEq, Eq, Structural)]
pub enum Span {
    /// The place where the whole expression was written.
    CallSite,
    /// The position of one token, by the number the lexer gave it.
    At(usize),
}

/// The brackets around a group of tokens.
#[derive(Clone, Copy, Debug, PartialEq, Eq, Structural)]
pub enum Delimiter {
    /// `( ... )`
    Parenthesis,
    /// `{ ... }`
    Brace,
    /// `[ ... ]`
    Bracket,
    /// A group without visible brackets.
    Bare,
}

/// Whether a punctuation character is glued to the one that follows it.
#[derive(Clone, Copy, Debug, PartialEq, Eq, Structural)]
pub enum Spacing {
    /// Stands alone, as the `=` in `a = b`.
    Alone,
    /// Immediately followed by another punctuation character, as the `=` in `=>`.
    Joint,
}

/// An identifier or keyword.
#[derive(Debug, PartialEq, Eq)]
pub struct Ident {
    pub name: String,
    pub span: Span,
}

/// One punctuation character.
#[derive(Clone, Copy, Debug, PartialEq, Eq, Structural)]
pub struct Punct {
    pub ch: char,
    pub spacing: Spacing,
    pub span: Span,
}

/// A literal, kept as the text that was written.
#[derive(Debug, PartialEq, Eq)]
pub struct Literal {
    pub text: String,
    pub span: Span,
}

/// A delimited sequence of tokens.
#[derive(Debug, PartialEq, Eq)]
pub struct Group {
    pub delimiter: Delimiter,
    pub stream: Vec<TokenTree>,
    pub span: Span,
}

/// A single token or a delimited group of tokens.
#[derive(Debug, PartialEq, Eq)]
pub enum TokenTree {
    Group(Group),
    Ident(Ident),
    Punct(Punct),
    Literal(Literal),
}

/// What an identifier is: its text and where it stands.
pub ghost struct IdentModel {
    pub name: Seq<char>,
    pub span: Span,
}

/// What a token is.
pub ghost enum TokenModel {
    Group { delimiter: Delimiter, stream: Seq<TokenModel>, span: Span },
    Ident(IdentModel),
    Punct(Punct),
    Literal { text: Seq<char>, span: Span },
}

impl View for Ident {
    type V = IdentModel;

    open spec fn view(&self) -> IdentModel {
        IdentModel { name: self.name@, span: self.span }
    }
}

/// The model of one token.
pub open spec fn token_model(t: TokenTree) -> TokenModel
    decreases t,
{
    match t {
        TokenTree::Group(g) => TokenModel::Group {
            delimiter: g.delimiter,
            stream: stream_model(g.stream@),
            span: g.span,
        },
        TokenTree::Ident(i) => TokenModel::Ident(i@),
        TokenTree::Punct(p) => TokenModel::Punct(p),
        TokenTree::Literal(l) => TokenModel::Literal { text: l.text@, span: l.span },
    }
}

/// The model of a sequence of tokens: the models of its tokens, in order.
pub open spec fn stream_model(s: Seq<TokenTree>) -> Seq<TokenModel>
    decreases s,
{
    Seq::new(
        s.len(),
        |i: int|
            if 0 <= i < s.len() {
                token_model(s[i])
            } else {
                arbitrary()
            },
    )
}

/// The models of a sequence of identifiers, in order.
pub open spec fn idents_model(s: Seq<Ident>) -> Seq<IdentModel> {
    Seq::new(s.len(), |i: int| s[i]@)
}

impl View for Group {
    type V = TokenModel;

    open spec fn view(&self) -> TokenModel {
        TokenModel::Group {
            delimiter: self.delimiter,
            stream: stream_model(self.stream@),
            span: self.span,
        }
    }
}

impl View for Literal {
    type V = TokenModel;

    open spec fn view(&self) -> TokenModel {
        TokenModel::Literal { text: self.text@, span: self.span }
    }
}

impl View for TokenTree {
    type V = TokenModel;

    open spec fn view(&self) -> TokenModel {
        token_model(*self)
    }
}

impl TokenModel {
    /// The source position of the token.
    pub open spec fn span(self) -> Span {
        match self {
            TokenModel::Group { span, .. } => span,
            TokenModel::Ident(i) => i.span,
            TokenModel::Punct(p) => p.span,
            TokenModel::Literal { span, .. } => span,
        }
    }

    /// Whether the token is the punctuation character `c`.
    pub open spec fn is_punct(self, c: char) -> bool {
        self matches TokenModel::Punct(p) && p.ch == c
    }

    /// Whether the token is a punctuation character glued to its successor.
    pub open spec fn is_joint(self) -> bool {
        self matches TokenModel::Punct(p) && p.spacing == Spacing::Joint
    }

    /// Whether the token is an identifier spelled `name`.
    pub open spec fn is_word(self, name: Seq<char>) -> bool {
        self matches TokenModel::Ident(i) && i.name == name
    }

    /// Whether the token is a group in the delimiter `d`.
    pub open spec fn is_group(self, d: Delimiter) -> bool {
        self matches TokenModel::Group { delimiter, .. } && delimiter == d
    }
}

/// The source position of the token at `pos`, or `scope` where the sequence
/// has ended.
pub open spec fn span_at(s: Seq<TokenModel>, pos: int, scope: Span) -> Span {
    if 0 <= pos < s.len() {
        s[pos].span()
    } else {
        scope
    }
}

impl Clone for Ident {
    fn clone(&self) -> (r: Self)
        ensures
            r@ == self@,
    {
        Ident { name: self.name.clone(), span: self.span }
    }
}

impl Clone for Literal {
    fn clone(&self) -> (r: Self)
        ensures
            r@ == self@,
    {
        Literal { text: self.text.clone(), span: self.span }
    }
}

impl Clone for Group {
    fn clone(&self) -> (r: Self)
        ensures
            r@ == self@,
        decreases self,
    {
        Group { delimiter: self.delimiter, stream: clone_stream(&self.stream), span: self.span }
    }
}

impl Clone for TokenTree {
    fn clone(&self) -> (r: Self)
        ensures
            r@ == self@,
        decreases self,
    {
        match self {
            TokenTree::Group(g) => TokenTree::Group(g.clone()),
            TokenTree::Ident(i) => TokenTree::Ident(i.clone()),
            TokenTree::Punct(p) => TokenTree::Punct(*p),
            TokenTree::Literal(l) => TokenTree::Literal(l.clone()),
        }
    }
}

/// Copies a sequence of tokens.
pub fn clone_stream(tokens: &Vec<TokenTree>) -> (r: Vec<TokenTree>)
    ensures
        stream_model(r@) == stream_model(tokens@),
    decreases tokens,
{
    let mut out: Vec<TokenTree> = Vec::new();
    let mut i: usize = 0;
    while i < tokens.len()
        invariant
            i <= tokens.len(),
            out.len() == i,
            forall|k: int| 0 <= k < i ==> token_model(out[k]) == token_model(tokens[k]),
        decreases tokens.len() - i,
    {
        let t = tokens[i].clone();
        out.push(t);
        i += 1;
    }
    assert(stream_model(out@) =~= stream_model(tokens@));
    out
}

/// Copies the tokens from `from` up to, not including, `to`.
pub fn clone_range(tokens: &Vec<TokenTree>, from: usize, to: usize) -> (r: Vec<TokenTree>)
    requires
        from <= to <= tokens.len(),
    ensures
        stream_model(r@) == stream_model(tokens@).subrange(from as int, to as int),
{
    let mut out: Vec<TokenTree> = Vec::new();
    let mut i: usize = from;
    while i < to
        invariant
            from <= i <= to <= tokens.len(),
            out.len() == i - from,
            forall|k: int| 0 <= k < i - from ==> token_model(out[k]) == token_model(tokens[from + k]),
        decreases to - i,
    {
        let t = tokens[i].clone();
        out.push(t);
        i += 1;
    }
    assert(stream_model(out@) =~= stream_model(tokens@).subrange(from as int, to as int));
    out
}

/// Copies a sequence of identifiers.
pub fn clone_idents(idents: &Vec<Ident>) -> (r: Vec<Ident>)
    ensures
        idents_model(r@) == idents_model(idents@),
{
    let mut out: Vec<Ident> = Vec::new();
    let mut i: usize = 0;
    while i < idents.len()
        invariant
            i <= idents.len(),
            out.len() == i,
            forall|k: int| 0 <= k < i ==> out[k]@ == idents[k]@,
        decreases idents.len() - i,
    {
        let t = idents[i].clone();
        out.push(t);
        i += 1;
    }
    assert(idents_model(out@) =~= idents_model(idents@));
    out
}

impl Ident {
    /// An identifier spelled `name`, standing at `span`.
    pub fn new(name: &str, span: Span) -> (r: Ident)
        ensures
            r@ == (IdentModel { name: name@, span }),
    {
        Ident { name: String::from_str(name), span }
    }

    /// Whether the identifier is spelled `word`.
    pub fn is(&self, word: &str) -> (b: bool)
        ensures
            b == (self@.name == word@),
    {
        self.name == String::from_str(word)
    }

    /// Whether two identifiers are spelled alike, wherever they stand.
    pub fn same_name(&self, other: &Ident) -> (b: bool)
        ensures
            b == (self@.name == other@.name),
    {
        self.name == other.name
    }
}

impl Punct {
    /// The punctuation character `ch`, standing at `span`.
    pub fn new(ch: char, spacing: Spacing, span: Span) -> (r: Punct)
        ensures
            r == (Punct { ch, spacing, span }),
    {
        Punct { ch, spacing, span }
    }

    /// The character itself.
    pub fn as_char(&self) -> (c: char)
        ensures
            c == self.ch,
    {
        self.ch
    }
}

impl Literal {
    /// The literal written as `text`, standing at `span`.
    pub fn new(text: &str, span: Span) -> (r: Literal)
        ensures
            r@ == (TokenModel::Literal { text: text@, span }),
    {
        Literal { text: String::from_str(text), span }
    }
}

impl Group {
    /// The tokens of `stream` inside the delimiter `delimiter`.
    pub fn new(delimiter: Delimiter, stream: Vec<TokenTree>, span: Span) -> (r: Group)
        ensures
            r@ == (TokenModel::Group { delimiter, stream: stream_model(stream@), span }),
    {
        Group { delimiter, stream, span }
    }
}

impl TokenTree {
    /// The source position of the token.
    pub fn span(&self) -> (s: Span)
        ensures
            s == self@.span(),
    {
        match self {
            TokenTree::Group(g) => g.span,
            TokenTree::Ident(i) => i.span,
            TokenTree::Punct(p) => p.span,
            TokenTree::Literal(l) => l.span,
        }
    }
}

/// The model of the first `n + 1` tokens is the model of the first `n`,
/// followed by the model of token `n`.
pub proof fn lemma_stream_model_take(s: Seq<TokenTree>, n: int)
    requires
        0 <= n < s.len(),
    ensures
        stream_model(s.take(n + 1)) == stream_model(s.take(n)).push(token_model(s[n])),
        stream_model(s.take(n)) == stream_model(s).take(n),
        stream_model(s)[n] == token_model(s[n]),
        stream_model(s).len() == s.len(),
{
    assert(stream_model(s.take(n + 1)) =~= stream_model(s.take(n)).push(token_model(s[n])));
    assert(stream_model(s.take(n)) =~= stream_model(s).take(n));
}

/// The model of a stream has one entry for each token.
pub proof fn lemma_stream_model_index(s: Seq<TokenTree>)
    ensures
        stream_model(s).len() == s.len(),
        forall|i: int| 0 <= i < s.len() ==> #[trigger] stream_model(s)[i] == token_model(s[i]),
{
}

} // verus!
