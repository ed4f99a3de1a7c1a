//! Diagnostics: what can be wrong with an expression, and where.
//!
//! Every failure names the kind of fault, the source position of the
//! offending token and, where the fault is about a name, that name. The first
//! fault found is the only one reported.
use crate::token::Span;
use vstd::prelude::*;

verus! {

/// The kind of fault found in an expression.
#[derive(Clone, Copy, Debug, PartialEq, Eq, Structural)]
pub enum ErrorKind {
    /// A `;` stands in the expression.
    ForbiddenSemicolon,
    /// A brace-delimited block stands in the expression.
    ForbiddenBraces,
    /// An index is declared under a name that is already taken.
    ReusedIndex,
    /// Something other than identifiers and commas stands in an index list.
    InvalidIndexContent,
    /// An index list uses a name that was never declared.
    UndeclaredIndex,
    /// An index list is not preceded by the name of an array.
    MissingTensorName,
    /// An index is declared and never used to access an array.
    UnusedIndex,
    /// The word before `:` in an indexer is neither `rev` nor `plain`.
    UnknownReindexingKeyword,
    /// An indexer does not start with an identifier.
    ExpectedReindexingIdentifier,
    /// A reserved word stands where a fragment of an expression was expected.
    IllegalKeyword,
    /// The word `for` was expected.
    ExpectedFor,
    /// The word `let` was expected.
    ExpectedLet,
    /// An identifier was expected.
    ExpectedIdentifier,
    /// A `,` was expected.
    ExpectedComma,
    /// A `=` was expected.
    ExpectedEquals,
    /// A `=>` was expected.
    ExpectedArrow,
    /// An expression of the host language was expected.
    ExpectedExpression,
    /// A token was expected where the tokens ended.
    ExpectedToken,
    /// Tokens are left over after what was to be read.
    UnexpectedToken,
    /// An array access uses an index that no open scope declares.
    UnknownIndex,
    /// A scope declares an index that an open scope already declares.
    DuplicateIndex,
}

/// A fault found in an expression.
#[derive(Debug, PartialEq, Eq)]
pub struct ParseError {
    pub kind: ErrorKind,
    /// The position of the offending token.
    pub span: Span,
    /// The name that the fault is about, empty where it is about none.
    pub subject: String,
    /// Whether the fault was met where the tokens ended.
    pub at_end: bool,
}

/// What a fault is.
pub ghost struct ErrorModel {
    pub kind: ErrorKind,
    pub span: Span,
    pub subject: Seq<char>,
    pub at_end: bool,
}

impl View for ParseError {
    type V = ErrorModel;

    open spec fn view(&self) -> ErrorModel {
        ErrorModel {
            kind: self.kind,
            span: self.span,
            subject: self.subject@,
            at_end: self.at_end,
        }
    }
}

/// A fault that is about no name.
pub open spec fn plain_fault(kind: ErrorKind, span: Span) -> ErrorModel {
    ErrorModel { kind, span, subject: Seq::empty(), at_end: false }
}

/// A fault that is about the name `subject`.
pub open spec fn named_fault(kind: ErrorKind, span: Span, subject: Seq<char>) -> ErrorModel {
    ErrorModel { kind, span, subject, at_end: false }
}

/// What a fault of kind `kind` about `subject` says, before any note on the
/// end of the input.
pub open spec fn kind_text(kind: ErrorKind, subject: Seq<char>) -> Seq<char> {
    match kind {
        ErrorKind::ForbiddenSemicolon => "Character ';' is forbidden"@,
        ErrorKind::ForbiddenBraces => "Characters '{' and '}' are forbidden"@,
        ErrorKind::ReusedIndex => "Illegal reused index name"@,
        ErrorKind::InvalidIndexContent => "Invalid content in indexes"@,
        ErrorKind::UndeclaredIndex => "Undeclared index"@,
        ErrorKind::MissingTensorName => "Invalid tensor name: an identifier was expected"@,
        ErrorKind::UnusedIndex => "Index '"@ + subject + "' is never used to access an array"@,
        ErrorKind::UnknownReindexingKeyword => "Unknown reindexing keyword: "@ + subject,
        ErrorKind::ExpectedReindexingIdentifier => "Expected an identifier for reindexing"@,
        ErrorKind::IllegalKeyword => "Keyword "@ + subject + " is illegal."@,
        ErrorKind::ExpectedFor => "expected `for`"@,
        ErrorKind::ExpectedLet => "expected `let`"@,
        ErrorKind::ExpectedIdentifier => if subject.len() == 0 {
            "expected identifier"@
        } else {
            "expected identifier, found keyword `"@ + subject + "`"@
        },
        ErrorKind::ExpectedComma => "expected `,`"@,
        ErrorKind::ExpectedEquals => "expected `=`"@,
        ErrorKind::ExpectedArrow => "expected `=>`"@,
        ErrorKind::ExpectedExpression => "expected an expression"@,
        ErrorKind::ExpectedToken => "expected token tree"@,
        ErrorKind::UnexpectedToken => "unexpected token"@,
        ErrorKind::UnknownIndex => "Index '"@ + subject
            + "' is not declared in the current scope"@,
        ErrorKind::DuplicateIndex => "Index '"@ + subject
            + "' is already declared in the current scope"@,
    }
}

/// What a fault says to the user.
pub open spec fn message_text(e: ErrorModel) -> Seq<char> {
    if e.at_end {
        "unexpected end of input, "@ + kind_text(e.kind, e.subject)
    } else {
        kind_text(e.kind, e.subject)
    }
}

impl ParseError {
    /// A fault of kind `kind` at `span`, about no name.
    pub fn new(kind: ErrorKind, span: Span) -> (e: ParseError)
        ensures
            e@ == plain_fault(kind, span),
    {
        ParseError { kind, span, subject: String::new(), at_end: false }
    }

    /// A fault of kind `kind` at `span`, about the name `subject`.
    pub fn about(kind: ErrorKind, span: Span, subject: &String) -> (e: ParseError)
        ensures
            e@ == named_fault(kind, span, subject@),
    {
        ParseError { kind, span, subject: subject.clone(), at_end: false }
    }

    /// The message for the user.
    pub fn message(&self) -> (text: String)
        ensures
            text@ == message_text(self@),
    {
        let mut out = String::new();
        if self.at_end {
            out.append("unexpected end of input, ");
        }
        let ghost head = out@;
        let subject = self.subject.as_str();
        match self.kind {
            ErrorKind::ForbiddenSemicolon => out.append("Character ';' is forbidden"),
            ErrorKind::ForbiddenBraces => out.append("Characters '{' and '}' are forbidden"),
            ErrorKind::ReusedIndex => out.append("Illegal reused index name"),
            ErrorKind::InvalidIndexContent => out.append("Invalid content in indexes"),
            ErrorKind::UndeclaredIndex => out.append("Undeclared index"),
            ErrorKind::MissingTensorName => out.append(
                "Invalid tensor name: an identifier was expected",
            ),
            ErrorKind::UnusedIndex => {
                out.append("Index '");
                out.append(subject);
                out.append("' is never used to access an array");
            },
            ErrorKind::UnknownReindexingKeyword => {
                out.append("Unknown reindexing keyword: ");
                out.append(subject);
            },
            ErrorKind::ExpectedReindexingIdentifier => out.append(
                "Expected an identifier for reindexing",
            ),
            ErrorKind::IllegalKeyword => {
                out.append("Keyword ");
                out.append(subject);
                out.append(" is illegal.");
            },
            ErrorKind::ExpectedFor => out.append("expected `for`"),
            ErrorKind::ExpectedLet => out.append("expected `let`"),
            ErrorKind::ExpectedIdentifier => {
                if self.subject.as_str().unicode_len() == 0 {
                    out.append("expected identifier");
                } else {
                    out.append("expected identifier, found keyword `");
                    out.append(subject);
                    out.append("`");
                }
            },
            ErrorKind::ExpectedComma => out.append("expected `,`"),
            ErrorKind::ExpectedEquals => out.append("expected `=`"),
            ErrorKind::ExpectedArrow => out.append("expected `=>`"),
            ErrorKind::ExpectedExpression => out.append("expected an expression"),
            ErrorKind::ExpectedToken => out.append("expected token tree"),
            ErrorKind::UnexpectedToken => out.append("unexpected token"),
            ErrorKind::UnknownIndex => {
                out.append("Index '");
                out.append(subject);
                out.append("' is not declared in the current scope");
            },
            ErrorKind::DuplicateIndex => {
                out.append("Index '");
                out.append(subject);
                out.append("' is already declared in the current scope");
            },
        }
        assert(out@ =~= head + kind_text(self.kind, self.subject@));
        assert(out@ =~= message_text(self@));
        out
    }
}

} // verus!
