//! A compiler for expressions over arrays with several indexes.
//!
//! An expression such as `for i j => a[i, j] + b[j]` declares indexes that
//! range over the dimensions of the arrays they access. The library parses
//! such expressions into a tree, finds for each index the array dimensions
//! that must agree in extent, and generates the nested iteration that
//! computes the expression once for every combination of index values.
//!
//! The tokens of an expression come from the lexer of the host language and
//! are handed over as plain values (`token`). Two readers work on them:
//!
//! - `parsing` reads an expression, notes the uses of its indexes while it
//!   reads, scope by scope (`types`), and feeds code generation
//!   (`sequentialization`, `emit`). [`new_ndarray`] runs the two one after
//!   the other.
//! - `model` reads the richer notation, in which a position can also be
//!   filled in reverse, through an indexing array, or by an expression of the
//!   host language, and writes a tree back as text. `inspection` walks such a
//!   tree and finds the classes of positions that must agree in extent.
//!   [`new_ndarray2`] runs the two one after the other.
//!
//! The executable functions are verified against contracts over
//! mathematical models of their arguments. One thing is taken on trust:
//! what `String::push` does (`text`). Where an expression of the host
//! language ends is asked of the parser of the host language
//! (`model::header`); nothing is claimed of its answers, which are kept so
//! that one reading gets one answer for one text. What holds of every
//! reading, of every inspection and of the generated names is proved in
//! `model::faithful`, `model::unplaced`, `parsing::laws`, `inspection::laws`,
//! `inspection::classes` and `sequentialization::laws`.
use vstd::prelude::*;

pub mod emit;
pub mod error;
pub mod inspection;
pub mod model;
pub mod parsing;
pub mod sequentialization;
pub mod text;
pub mod token;
pub mod types;

use crate::error::{ErrorModel, ParseError};
use crate::inspection::{inspect, inspect_spec, IndexingPositionMapping};
use crate::model::lambda::{group_outcome, parse_group, RicciGroup};
use crate::parsing::{parse, parse_spec};
use crate::sequentialization::{sequentialize, sequentialize_spec};
use crate::text::{simplified, simplify_text, stream_text, stream_to_string};
use crate::token::{stream_model, Span, TokenModel, TokenTree};
use crate::types::{every_index_used, lemma_unused_place, SequenceModel};

verus! {

/// Writes `text` on one line: every line without its leading and trailing
/// white space, followed by one space.
pub fn simplify(text: &str) -> (result: String)
    ensures
        result@ == simplified(text@),
{
    simplify_text(text)
}

/// The code that the expression `s` expands to, or the fault that its
/// reading meets. Whatever is read without fault has code.
pub open spec fn expansion(s: Seq<TokenModel>) -> Result<Seq<TokenModel>, ErrorModel> {
    match parse_spec(s) {
        Ok(p) => Ok(
            sequentialize_spec(
                SequenceModel { span: Span::CallSite, use_parens: false, content: p.content },
                p.table,
            ),
        ),
        Err(e) => Err(e),
    }
}

/// Whatever is read without fault can be lowered: every index that the
/// reading declares is used, so that generation finds the extent of each,
/// and the expansion has code.
pub proof fn lemma_reading_suffices_for_generation(s: Seq<TokenModel>)
    ensures
        parse_spec(s) matches Ok(p) ==> every_index_used(p.table),
        parse_spec(s) is Ok <==> expansion(s) is Ok,
{
    match crate::parsing::parse_sequence_spec(s, 0, Span::CallSite, Seq::empty(), Seq::empty()) {
        Ok(p) => {
            lemma_unused_place(p.table, 0);
        },
        Err(_) => {},
    }
}

/// Expands an expression into the code that computes it: a new array where
/// the expression is one scope, an expression over iterators otherwise.
pub fn new_ndarray(input: &Vec<TokenTree>) -> (r: Result<Vec<TokenTree>, ParseError>)
    ensures
        match expansion(stream_model(input@)) {
            Ok(code) => r matches Ok(got) && stream_model(got@) == code,
            Err(e) => r matches Err(got) && got@ == e,
        },
{
    match parse(input) {
        Err(invalid) => Err(invalid),
        Ok((sequence, index_use)) => Ok(sequentialize(sequence, index_use)),
    }
}

/// Expands an expression and gives the text of its code, on one line.
pub fn format_new_ndarray(input: &Vec<TokenTree>) -> (r: Result<String, ParseError>)
    ensures
        match expansion(stream_model(input@)) {
            Ok(code) => r matches Ok(got) && got@ == simplified(stream_text(code)),
            Err(e) => r matches Err(got) && got@ == e,
        },
{
    match new_ndarray(input) {
        Err(invalid) => Err(invalid),
        Ok(output) => {
            let text = stream_to_string(&output);
            Ok(simplify(text.as_str()))
        },
    }
}

/// What the expression `s`, written with `for`, is found to hold: its
/// classes of positions and its plain values, or the first fault met, where
/// `host` tells where the expressions of the host language end.
pub open spec fn analysis(s: Seq<TokenModel>, host: spec_fn(Seq<char>) -> bool) -> Result<
    crate::inspection::MappingModel,
    ErrorModel,
> {
    match parse_group(s, Span::CallSite, host) {
        Ok(group) => inspect_spec(group),
        Err(e) => Err(e),
    }
}

/// Whether the executable outcome `r` is the outcome `want` of an analysis.
pub open spec fn analysis_outcome(
    r: Result<IndexingPositionMapping, ParseError>,
    want: Result<crate::inspection::MappingModel, ErrorModel>,
) -> bool {
    match want {
        Ok(found) => r matches Ok(got) && got@ == found,
        Err(e) => r matches Err(got) && got@ == e,
    }
}

/// Reads an expression written with `for` and inspects its use of indexes.
/// The outcome is the one that the grammar and the inspection give for the
/// tokens and for the answers of the parser of the host language, which are
/// a function of the text that it was asked about.
pub fn new_ndarray2(input: &Vec<TokenTree>) -> (r: Result<IndexingPositionMapping, ParseError>)
    ensures
        exists|host: spec_fn(Seq<char>) -> bool|
            analysis_outcome(r, #[trigger] analysis(stream_model(input@), host)),
{
    let read = RicciGroup::from_tokens(input);
    let ghost host = choose|host: spec_fn(Seq<char>) -> bool|
        group_outcome(read, #[trigger] parse_group(stream_model(input@), Span::CallSite, host));
    let r = match read {
        Err(invalid) => Err(invalid),
        Ok(group) => inspect(&group),
    };
    proof {
        assert(analysis_outcome(r, analysis(stream_model(input@), host)));
    }
    r
}

} // verus!
