//! Code generation: lowers a parsed expression to the nested iteration that
//! computes it.
//!
//! The generated code is one block in braces. It opens with one statement
//! for each index, which takes the extent of the index from the first array
//! position that the index fills, and with one assertion for each further
//! position, which demands that its extent agree with the first. Then comes
//! one expression. A scope that is all there is to the expression becomes a
//! call that builds a new array; any other scope becomes an iterator over
//! the combinations of its index values.
//!
//! The extent of an index is held in a variable named after the index. Two
//! scopes that stand side by side may declare the same name, so the second
//! index of a name and those after it carry their rank in the name of their
//! variable: `j_dimension`, then `j_dimension_1`, `j_dimension_2`.
use crate::emit::{
    decimal, emit, emit_all, emit_glue, emit_group, emit_ident, emit_literal, emit_mark,
    emit_number, emit_separated, emit_step, emit_word, glue, grouped, literal, mark, separated,
    step, word,
};
use crate::parsing::reversed;
use crate::token::{
    idents_model, stream_model, Delimiter, Ident, IdentModel, Span, TokenModel, TokenTree,
};
use crate::types::{
    alternative_model, content_model, count_named, every_index_used, lemma_content_model_take, uses_model,
    AlternativeModel, EinsteinAlternative, EinsteinFunction, EinsteinPosition, EinsteinSequence,
    FunctionModel, IndexEntryModel, IndexUse, SequenceModel, UseModel,
};
use vstd::prelude::*;

pub mod laws;

verus! {

/// The name `name` without the mark of a raw identifier, `r#`, in front.
pub open spec fn stem(name: Seq<char>) -> Seq<char> {
    if name.len() >= 2 && name[0] == 'r' && name[1] == '#' {
        name.skip(2)
    } else {
        name
    }
}

/// The name of the variable that holds the extent of the index named `name`
/// that has the rank `rank` among the indexes of its name.
pub open spec fn dimension_name(name: Seq<char>, rank: usize) -> Seq<char> {
    if rank == 0 {
        stem(name) + "_dimension"@
    } else {
        stem(name) + "_dimension_"@ + decimal(rank as nat)
    }
}

/// The rank at `i` in `ranks`; 0 where `ranks` holds none there.
pub open spec fn rank_at(ranks: Seq<usize>, i: int) -> usize {
    if 0 <= i < ranks.len() {
        ranks[i]
    } else {
        0
    }
}

/// The path `::first::second::third`.
pub open spec fn path3(first: Seq<char>, second: Seq<char>, third: Seq<char>, span: Span) -> Seq<
    TokenModel,
> {
    step(first, span) + step(second, span) + step(third, span)
}

/// The extent found at position `position` of the array `tensor`:
/// `::tensorism::tensors::Tensor::shape(&tensor).position`.
pub open spec fn shape_of(tensor: IdentModel, position: int, span: Span) -> Seq<TokenModel> {
    (path3("tensorism"@, "tensors"@, "Tensor"@, span) + step("shape"@, span)).push(
        grouped(Delimiter::Parenthesis, seq![mark('&', span), TokenModel::Ident(tensor)], span),
    ).push(mark('.', span)).push(literal(decimal(position as nat), Span::CallSite))
}

/// The statement that takes the extent of the index `name` from its first
/// use:
/// `let name_dimension: ::tensorism::dimensions::Dim::<_> = <extent>;`.
pub open spec fn definition_of(name: Seq<char>, rank: usize, first: UseModel) -> Seq<TokenModel> {
    let span = first.tensor_name.span;
    ((seq![
        word("let"@, span),
        word(dimension_name(name, rank), Span::CallSite),
        mark(':', span),
    ]
        + path3("tensorism"@, "dimensions"@, "Dim"@, span)).push(glue(':', span)).push(
        mark(':', span),
    ).push(mark('<', span)).push(word("_"@, span)).push(mark('>', span)).push(mark('=', span))
        + shape_of(first.tensor_name, first.position, span)).push(mark(';', span))
}

/// The assertion that the extent at the use `other` agrees with the extent
/// at the first use `first`:
/// `::tensorism::dimensions::identical(<extent>, <extent>);`.
pub open spec fn agreement_of(first: UseModel, other: UseModel) -> Seq<TokenModel> {
    let span = other.index_name.span;
    path3("tensorism"@, "dimensions"@, "identical"@, span).push(
        grouped(
            Delimiter::Parenthesis,
            shape_of(first.tensor_name, first.position, span).push(mark(',', span)) + shape_of(
                other.tensor_name,
                other.position,
                span,
            ),
            span,
        ),
    ).push(mark(';', span))
}

/// The assertions for the uses of `uses` from `from` on.
pub open spec fn agreements_of(uses: Seq<UseModel>, from: int) -> Seq<TokenModel>
    decreases uses.len() - from,
{
    if !(1 <= from < uses.len()) {
        Seq::empty()
    } else {
        agreement_of(uses[0], uses[from]) + agreements_of(uses, from + 1)
    }
}

/// The statements for one index named `name`, of the rank `rank`, with the
/// uses `uses`: its extent, then one assertion for each use after the first.
pub open spec fn entry_header(name: Seq<char>, rank: usize, uses: Seq<UseModel>) -> Seq<
    TokenModel,
> {
    definition_of(name, rank, uses[0]) + agreements_of(uses, 1)
}

/// The rank of the index at `k` in `table`: how many indexes of its name
/// were declared before it.
pub open spec fn rank_in(table: Seq<IndexEntryModel>, k: int) -> usize {
    count_named(table, table[k].index.name, k) as usize
}

/// The statements for the indexes of `table` from `from` on, in the order of
/// declaration.
pub open spec fn header_spec(table: Seq<IndexEntryModel>, from: int) -> Seq<TokenModel>
    decreases table.len() - from,
{
    if !(0 <= from < table.len()) {
        Seq::empty()
    } else {
        entry_header(table[from].index.name, rank_in(table, from), table[from].uses)
            + header_spec(table, from + 1)
    }
}

/// The tuple of the indexes `direct`: `(i, j, )`.
pub open spec fn tuple_of(direct: Seq<IdentModel>) -> TokenModel {
    grouped(
        Delimiter::Parenthesis,
        separated(direct, Span::CallSite).push(mark(',', Span::CallSite)),
        Span::CallSite,
    )
}

/// The range of an index: `(0usize..i_dimension.into())`.
pub open spec fn range_of(index: IdentModel, rank: usize) -> TokenModel {
    let span = index.span;
    grouped(
        Delimiter::Parenthesis,
        seq![
            literal("0usize"@, span),
            glue('.', span),
            mark('.', span),
            word(dimension_name(index.name, rank), span),
            mark('.', span),
            word("into"@, span),
            grouped(Delimiter::Parenthesis, Seq::empty(), span),
        ],
        span,
    )
}

/// One layer of iteration: `(0usize..i_dimension.into()).map(move |i| inner)`,
/// where every layer but the innermost says `flat_map`.
pub open spec fn layer_of(
    index: IdentModel,
    rank: usize,
    innermost: bool,
    inner: Seq<TokenModel>,
) -> Seq<TokenModel> {
    let span = index.span;
    seq![
        range_of(index, rank),
        mark('.', span),
        word(
            if innermost {
                "map"@
            } else {
                "flat_map"@
            },
            span,
        ),
        grouped(
            Delimiter::Parenthesis,
            seq![word("move"@, span), mark('|', span), TokenModel::Ident(index), mark('|', span)]
                + inner,
            span,
        ),
    ]
}

/// The layers of iteration for the first `count` indexes of `inverted`,
/// which lists them innermost first, around the tuple of all of them.
pub open spec fn layers_of(inverted: Seq<IdentModel>, ranks: Seq<usize>, count: int) -> Seq<
    TokenModel,
>
    decreases count,
{
    if count <= 0 {
        seq![tuple_of(inverted.reverse())]
    } else {
        layer_of(
            inverted[count - 1],
            rank_at(ranks, count - 1),
            count == 1,
            layers_of(inverted, ranks, count - 1),
        )
    }
}

/// The unchecked read of an element:
/// `(*unsafe { tensor.get_unchecked(i, j) })`.
pub open spec fn access_of(tensor_name: IdentModel, span: Span, indexes: Seq<IdentModel>) -> TokenModel {
    grouped(
        Delimiter::Parenthesis,
        seq![
            mark('*', span),
            word("unsafe"@, span),
            grouped(
                Delimiter::Brace,
                seq![
                    TokenModel::Ident(tensor_name),
                    mark('.', span),
                    word("get_unchecked"@, span),
                    grouped(Delimiter::Parenthesis, separated(indexes, span), span),
                ],
                span,
            ),
        ],
        span,
    )
}

/// The code of one piece of a sequence.
pub open spec fn alternative_code(x: AlternativeModel) -> Seq<TokenModel>
    decreases x,
{
    match x {
        AlternativeModel::Func(f) => function_code(f),
        AlternativeModel::Tree(t) => seq![t],
        AlternativeModel::Sequence(s) => sequence_code(s),
        AlternativeModel::TensorAccess { tensor_name, span, indexes } => seq![
            access_of(tensor_name, span, indexes),
        ],
    }
}

/// The code of a list of pieces: the code of each, in order.
pub open spec fn content_code(s: Seq<AlternativeModel>) -> Seq<TokenModel>
    decreases s,
{
    if s.len() == 0 {
        Seq::empty()
    } else {
        content_code(s.drop_last()) + alternative_code(s.last())
    }
}

/// The code of a sequence: the code of its pieces, in parentheses where the
/// sequence was written in parentheses.
pub open spec fn sequence_code(s: SequenceModel) -> Seq<TokenModel>
    decreases s,
{
    if s.use_parens {
        seq![grouped(Delimiter::Parenthesis, content_code(s.content), Span::CallSite)]
    } else {
        content_code(s.content)
    }
}

/// The closure that receives a tuple of index values and gives the value of
/// the body: `(|(i, j, )| { body })`, as the argument of a call.
pub open spec fn closure_of(direct: Seq<IdentModel>, body: Seq<TokenModel>, span: Span) -> TokenModel {
    grouped(
        Delimiter::Parenthesis,
        seq![
            mark('|', span),
            tuple_of(direct),
            mark('|', span),
            grouped(Delimiter::Brace, body, span),
        ],
        span,
    )
}

/// The code of a scope that stands inside an expression: an iterator over
/// the tuples of its index values, the first index outermost, mapped to the
/// value of its body.
pub open spec fn function_code(f: FunctionModel) -> Seq<TokenModel>
    decreases f,
{
    let span = f.sequence.span;
    layers_of(f.inverted_indexes, f.inverted_ranks, f.inverted_indexes.len() as int).push(
        mark('.', span),
    ).push(
        word("map"@, span),
    ).push(closure_of(f.inverted_indexes.reverse(), sequence_code(f.sequence), span))
}

/// The argument that gives the builder the extent of `index`:
/// `(i_dimension)`.
pub open spec fn extent_argument(index: IdentModel, rank: usize) -> TokenModel {
    grouped(
        Delimiter::Parenthesis,
        seq![word(dimension_name(index.name, rank), index.span)],
        index.span,
    )
}

/// The chain that gives the builder the extents of the first `count`
/// indexes of `direct`, whose ranks `inverted_ranks` lists last first:
/// `::tensorism::building::TensorBuilding::with(i_dimension).with(j_dimension)`.
pub open spec fn shape_chain(direct: Seq<IdentModel>, inverted_ranks: Seq<usize>, count: int) -> Seq<
    TokenModel,
>
    decreases count,
{
    if count <= 1 {
        let span = direct[0].span;
        (path3("tensorism"@, "building"@, "TensorBuilding"@, span) + step("with"@, span)).push(
            extent_argument(direct[0], rank_at(inverted_ranks, direct.len() - 1)),
        )
    } else {
        let span = direct[count - 1].span;
        shape_chain(direct, inverted_ranks, count - 1).push(mark('.', span)).push(
            word("with"@, span),
        ).push(
            extent_argument(direct[count - 1], rank_at(inverted_ranks, direct.len() - count)),
        )
    }
}

/// The code of a scope that is all there is to an expression: a call that
/// builds a new array with one dimension for each index, the first index
/// first, from the value of the body at each tuple of index values.
pub open spec fn shape_creation_code(f: FunctionModel) -> Seq<TokenModel> {
    let direct = f.inverted_indexes.reverse();
    let span = Span::CallSite;
    shape_chain(direct, f.inverted_ranks, direct.len() as int).push(mark('.', span)).push(
        word("define"@, span),
    ).push(closure_of(direct, sequence_code(f.sequence), span))
}

/// The scope that is all there is to the sequence `s`, if `s` is nothing but
/// one scope with at least one index; else the sequence to lower piece by
/// piece.
pub open spec fn extract_spec(s: SequenceModel) -> Result<FunctionModel, SequenceModel> {
    if s.content.len() == 1 && s.content[0] is Func {
        let f = s.content[0]->Func_0;
        if f.inverted_indexes.len() == 0 {
            Err(f.sequence)
        } else {
            Ok(f)
        }
    } else {
        Err(s)
    }
}

/// The expression that ends the generated block.
pub open spec fn body_code(s: SequenceModel) -> Seq<TokenModel> {
    match extract_spec(s) {
        Ok(f) => shape_creation_code(f),
        Err(rest) => sequence_code(rest),
    }
}

/// The generated code: one block in braces that holds the statements for
/// the indexes and then the expression.
pub open spec fn sequentialize_spec(s: SequenceModel, table: Seq<IndexEntryModel>) -> Seq<
    TokenModel,
> {
    seq![grouped(Delimiter::Brace, header_spec(table, 0) + body_code(s), Span::CallSite)]
}

/// A sequence of tokens that holds nothing.
fn nothing() -> (r: Vec<TokenTree>)
    ensures
        stream_model(r@) == Seq::<TokenModel>::empty(),
{
    let r: Vec<TokenTree> = Vec::new();
    assert(stream_model(r@) =~= Seq::<TokenModel>::empty());
    r
}

/// The rank at `i` in `ranks`; 0 where `ranks` holds none there.
pub fn rank_of(ranks: &Vec<usize>, i: usize) -> (rank: usize)
    ensures
        rank == rank_at(ranks@, i as int),
{
    if i < ranks.len() {
        ranks[i]
    } else {
        0
    }
}

/// The name `name` without the mark of a raw identifier in front.
pub fn stem_of(name: &String) -> (r: String)
    ensures
        r@ == stem(name@),
{
    let chars = crate::text::characters(name.as_str());
    if chars.len() >= 2 && chars[0] == 'r' && chars[1] == '#' {
        let mut out = String::new();
        let mut i: usize = 2;
        assert(out@ =~= chars@.subrange(2, 2));
        while i < chars.len()
            invariant
                2 <= i <= chars.len(),
                out@ == chars@.subrange(2, i as int),
            decreases chars.len() - i,
        {
            out.push(chars[i]);
            assert(out@ =~= chars@.subrange(2, i + 1));
            i += 1;
        }
        assert(out@ =~= name@.skip(2));
        out
    } else {
        name.clone()
    }
}

/// The variable that holds the extent of the index named `name` that has
/// the rank `rank`.
pub fn dimension_ident(name: &String, rank: usize, span: Span) -> (r: Ident)
    ensures
        r@ == (IdentModel { name: dimension_name(name@, rank), span }),
{
    let mut text = stem_of(name);
    if rank == 0 {
        text.append("_dimension");
    } else {
        text.append("_dimension_");
        crate::emit::write_decimal(rank, &mut text);
    }
    Ident { name: text, span }
}

/// The path `::first::second::third`.
fn emit_path3(first: &str, second: &str, third: &str, span: Span) -> (r: Vec<TokenTree>)
    ensures
        stream_model(r@) == path3(first@, second@, third@, span),
{
    let mut out = nothing();
    emit_step(&mut out, first, span);
    assert(stream_model(out@) =~= step(first@, span));
    emit_step(&mut out, second, span);
    emit_step(&mut out, third, span);
    out
}

/// The extent found at position `position` of the array `tensor`.
fn emit_shape(tensor: &Ident, position: usize, span: Span) -> (r: Vec<TokenTree>)
    ensures
        stream_model(r@) == shape_of(tensor@, position as int, span),
{
    let mut out = emit_path3("tensorism", "tensors", "Tensor", span);
    emit_step(&mut out, "shape", span);
    let mut inner = nothing();
    emit_mark(&mut inner, '&', span);
    emit_ident(&mut inner, tensor);
    assert(stream_model(inner@) =~= seq![mark('&', span), TokenModel::Ident(tensor@)]);
    emit_group(&mut out, Delimiter::Parenthesis, inner, span);
    emit_mark(&mut out, '.', span);
    emit_number(&mut out, position, Span::CallSite);
    out
}

/// The statement that takes the extent of the index `name` from its first
/// use.
fn emit_definition(name: &String, rank: usize, first: &EinsteinPosition) -> (r: Vec<TokenTree>)
    ensures
        stream_model(r@) == definition_of(name@, rank, first@),
{
    let span = first.tensor_name.span;
    let mut out = nothing();
    emit_word(&mut out, "let", span);
    emit(&mut out, TokenTree::Ident(dimension_ident(name, rank, Span::CallSite)));
    emit_mark(&mut out, ':', span);
    emit_all(&mut out, emit_path3("tensorism", "dimensions", "Dim", span));
    emit_glue(&mut out, ':', span);
    emit_mark(&mut out, ':', span);
    emit_mark(&mut out, '<', span);
    emit_word(&mut out, "_", span);
    emit_mark(&mut out, '>', span);
    emit_mark(&mut out, '=', span);
    emit_all(&mut out, emit_shape(&first.tensor_name, first.position, span));
    emit_mark(&mut out, ';', span);
    out
}

/// The assertion that the extent at `other` agrees with the extent at
/// `first`.
fn emit_agreement(first: &EinsteinPosition, other: &EinsteinPosition) -> (r: Vec<TokenTree>)
    ensures
        stream_model(r@) == agreement_of(first@, other@),
{
    let span = other.index_name.span;
    let mut out = emit_path3("tensorism", "dimensions", "identical", span);
    let mut inner = emit_shape(&first.tensor_name, first.position, span);
    emit_mark(&mut inner, ',', span);
    emit_all(&mut inner, emit_shape(&other.tensor_name, other.position, span));
    emit_group(&mut out, Delimiter::Parenthesis, inner, span);
    emit_mark(&mut out, ';', span);
    out
}

/// The statements for one index.
fn emit_entry(name: &String, rank: usize, positions: &Vec<EinsteinPosition>) -> (r: Vec<
    TokenTree,
>)
    requires
        positions.len() > 0,
    ensures
        stream_model(r@) == entry_header(name@, rank, uses_model(positions@)),
{
    let ghost uses = uses_model(positions@);
    let mut out = emit_definition(name, rank, &positions[0]);
    let ghost definition = stream_model(out@);
    let mut i: usize = 1;
    assert(definition + agreements_of(uses, 1) == entry_header(name@, rank, uses));
    while i < positions.len()
        invariant
            1 <= i <= positions.len(),
            uses == uses_model(positions@),
            stream_model(out@) + agreements_of(uses, i as int) == entry_header(name@, rank, uses),
        decreases positions.len() - i,
    {
        let ghost before = stream_model(out@);
        let piece = emit_agreement(&positions[0], &positions[i]);
        proof {
            let a = agreement_of(uses[0], uses[i as int]);
            let rest = agreements_of(uses, i + 1);
            assert(stream_model(piece@) == a);
            assert(agreements_of(uses, i as int) == a + rest);
            assert(before + (a + rest) =~= (before + a) + rest);
        }
        emit_all(&mut out, piece);
        i += 1;
    }
    assert(stream_model(out@) + Seq::<TokenModel>::empty() =~= stream_model(out@));
    out
}

/// The statements that open the generated block: for each index, in the
/// order of declaration, its extent and the assertions that its uses agree.
pub fn sequentialize_header(index_use: IndexUse) -> (output: Vec<TokenTree>)
    requires
        every_index_used(index_use@),
    ensures
        stream_model(output@) == header_spec(index_use@, 0),
{
    let ghost table = index_use@;
    let mut output = nothing();
    let entries = index_use.into_iter();
    let mut i: usize = 0;
    assert(Seq::<TokenModel>::empty() + header_spec(table, 0) =~= header_spec(table, 0));
    while i < entries.len()
        invariant
            i <= entries.len(),
            entries@.len() == table.len(),
            every_index_used(table),
            forall|k: int|
                0 <= k < entries@.len() ==> (#[trigger] entries@[k]).0@ == table[k].index.name
                    && uses_model(entries@[k].1@) == table[k].uses,
            stream_model(output@) + header_spec(table, i as int) == header_spec(table, 0),
        decreases entries.len() - i,
    {
        let ghost before = stream_model(output@);
        assert(table[i as int].uses.len() > 0);
        assert(uses_model(entries@[i as int].1@).len() == entries@[i as int].1@.len());
        let mut rank: usize = 0;
        let mut j: usize = 0;
        while j < i
            invariant
                j <= i < entries.len(),
                entries@.len() == table.len(),
                rank <= j,
                rank == count_named(table, table[i as int].index.name, j as int),
                forall|k: int|
                    0 <= k < entries@.len() ==> (#[trigger] entries@[k]).0@ == table[k].index.name,
            decreases i - j,
        {
            if entries[j].0 == entries[i].0 {
                rank += 1;
            }
            j += 1;
        }
        let piece = emit_entry(&entries[i].0, rank, &entries[i].1);
        proof {
            let e = entry_header(
                table[i as int].index.name,
                rank_in(table, i as int),
                table[i as int].uses,
            );
            let rest = header_spec(table, i + 1);
            assert(stream_model(piece@) == e);
            assert(header_spec(table, i as int) == e + rest);
            assert(before + (e + rest) =~= (before + e) + rest);
        }
        emit_all(&mut output, piece);
        i += 1;
    }
    assert(stream_model(output@) + Seq::<TokenModel>::empty() =~= stream_model(output@));
    output
}

/// The tuple of the indexes `direct`.
fn emit_tuple(direct: &Vec<Ident>) -> (r: TokenTree)
    ensures
        r@ == tuple_of(idents_model(direct@)),
{
    let mut inner = nothing();
    emit_separated(&mut inner, direct, Span::CallSite);
    assert(stream_model(inner@) =~= separated(idents_model(direct@), Span::CallSite));
    emit_mark(&mut inner, ',', Span::CallSite);
    TokenTree::Group(crate::token::Group::new(Delimiter::Parenthesis, inner, Span::CallSite))
}

/// The range of the index `index`.
fn emit_range(index: &Ident, rank: usize) -> (r: TokenTree)
    ensures
        r@ == range_of(index@, rank),
{
    let span = index.span;
    let mut inner = nothing();
    emit_literal(&mut inner, "0usize", span);
    emit_glue(&mut inner, '.', span);
    emit_mark(&mut inner, '.', span);
    emit(&mut inner, TokenTree::Ident(dimension_ident(&index.name, rank, span)));
    emit_mark(&mut inner, '.', span);
    emit_word(&mut inner, "into", span);
    emit_group(&mut inner, Delimiter::Parenthesis, nothing(), span);
    assert(stream_model(inner@) =~= seq![
        literal("0usize"@, span),
        glue('.', span),
        mark('.', span),
        word(dimension_name(index@.name, rank), span),
        mark('.', span),
        word("into"@, span),
        grouped(Delimiter::Parenthesis, Seq::empty(), span),
    ]);
    TokenTree::Group(crate::token::Group::new(Delimiter::Parenthesis, inner, span))
}

/// One layer of iteration over `index`, around `inner`.
fn emit_layer(index: &Ident, rank: usize, innermost: bool, inner: Vec<TokenTree>) -> (r: Vec<
    TokenTree,
>)
    ensures
        stream_model(r@) == layer_of(index@, rank, innermost, stream_model(inner@)),
{
    let span = index.span;
    let mut closure = nothing();
    emit_word(&mut closure, "move", span);
    emit_mark(&mut closure, '|', span);
    emit_ident(&mut closure, index);
    emit_mark(&mut closure, '|', span);
    assert(stream_model(closure@) =~= seq![
        word("move"@, span),
        mark('|', span),
        TokenModel::Ident(index@),
        mark('|', span),
    ]);
    emit_all(&mut closure, inner);
    let mut out = nothing();
    emit(&mut out, emit_range(index, rank));
    emit_mark(&mut out, '.', span);
    if innermost {
        emit_word(&mut out, "map", span);
    } else {
        emit_word(&mut out, "flat_map", span);
    }
    emit_group(&mut out, Delimiter::Parenthesis, closure, span);
    assert(stream_model(out@) =~= layer_of(index@, rank, innermost, stream_model(inner@)));
    out
}

/// The closure that receives the tuple of `direct` and gives `body`.
fn emit_closure(direct: &Vec<Ident>, body: Vec<TokenTree>, span: Span) -> (r: TokenTree)
    ensures
        r@ == closure_of(idents_model(direct@), stream_model(body@), span),
{
    let mut inner = nothing();
    emit_mark(&mut inner, '|', span);
    emit(&mut inner, emit_tuple(direct));
    emit_mark(&mut inner, '|', span);
    emit_group(&mut inner, Delimiter::Brace, body, span);
    assert(stream_model(inner@) =~= seq![
        mark('|', span),
        tuple_of(idents_model(direct@)),
        mark('|', span),
        grouped(Delimiter::Brace, stream_model(body@), span),
    ]);
    TokenTree::Group(crate::token::Group::new(Delimiter::Parenthesis, inner, span))
}

/// Adds to `stream` the code of a scope that stands inside an expression.
pub fn sequentialize_tensor_func(func: &EinsteinFunction, stream: &mut Vec<TokenTree>)
    ensures
        stream_model(final(stream)@) == stream_model(old(stream)@) + function_code(func@),
    decreases func, 0nat,
{
    let ghost inverted = idents_model(func.inverted_indexes@);
    let direct_indexes = reversed(&func.inverted_indexes);
    let mut mappings = nothing();
    emit(&mut mappings, emit_tuple(&direct_indexes));
    assert(stream_model(mappings@) =~= layers_of(inverted, func.inverted_ranks@, 0));
    let mut i: usize = 0;
    while i < func.inverted_indexes.len()
        invariant
            i <= func.inverted_indexes.len(),
            inverted == idents_model(func.inverted_indexes@),
            stream_model(mappings@) == layers_of(inverted, func.inverted_ranks@, i as int),
        decreases func.inverted_indexes.len() - i,
    {
        mappings = emit_layer(
            &func.inverted_indexes[i],
            rank_of(&func.inverted_ranks, i),
            i == 0,
            mappings,
        );
        i += 1;
    }
    let span = func.sequence.span;
    let mut content_stream = nothing();
    sequentialize_sequence(&func.sequence, &mut content_stream);
    assert(stream_model(content_stream@) =~= sequence_code(func.sequence@));
    emit_mark(&mut mappings, '.', span);
    emit_word(&mut mappings, "map", span);
    emit(&mut mappings, emit_closure(&direct_indexes, content_stream, span));
    emit_all(stream, mappings);
}

/// The unchecked read of an element of `tensor_name`.
fn emit_access(tensor_name: &Ident, span: Span, indexes: &Vec<Ident>) -> (r: TokenTree)
    ensures
        r@ == access_of(tensor_name@, span, idents_model(indexes@)),
{
    let mut arguments = nothing();
    emit_separated(&mut arguments, indexes, span);
    assert(stream_model(arguments@) =~= separated(idents_model(indexes@), span));
    let mut block = nothing();
    emit_ident(&mut block, tensor_name);
    emit_mark(&mut block, '.', span);
    emit_word(&mut block, "get_unchecked", span);
    emit_group(&mut block, Delimiter::Parenthesis, arguments, span);
    assert(stream_model(block@) =~= seq![
        TokenModel::Ident(tensor_name@),
        mark('.', span),
        word("get_unchecked"@, span),
        grouped(Delimiter::Parenthesis, separated(idents_model(indexes@), span), span),
    ]);
    let mut inner = nothing();
    emit_mark(&mut inner, '*', span);
    emit_word(&mut inner, "unsafe", span);
    emit_group(&mut inner, Delimiter::Brace, block, span);
    assert(stream_model(inner@) =~= seq![
        mark('*', span),
        word("unsafe"@, span),
        grouped(Delimiter::Brace, stream_model(block@), span),
    ]);
    TokenTree::Group(crate::token::Group::new(Delimiter::Parenthesis, inner, span))
}

/// Adds to `stream` the code of a sequence.
pub fn sequentialize_sequence(sequence: &EinsteinSequence, stream: &mut Vec<TokenTree>)
    ensures
        stream_model(final(stream)@) == stream_model(old(stream)@) + sequence_code(sequence@),
    decreases sequence, 1nat,
{
    let ghost all = content_model(sequence.content@);
    let mut content = nothing();
    let mut i: usize = 0;
    assert(content_model(sequence.content@.take(0)) =~= Seq::<AlternativeModel>::empty());
    while i < sequence.content.len()
        invariant
            i <= sequence.content.len(),
            stream_model(content@) == content_code(content_model(sequence.content@.take(i as int))),
        decreases sequence.content.len() - i,
    {
        let ghost next = content_model(sequence.content@.take(i + 1));
        proof {
            lemma_content_model_take(sequence.content@, i as int);
            assert(next.last() == alternative_model(sequence.content@[i as int]));
            assert(content_code(next) == content_code(next.drop_last()) + alternative_code(
                next.last(),
            ));
        }
        let ghost before = stream_model(content@);
        match &sequence.content[i] {
            EinsteinAlternative::Func(sub_func) => {
                sequentialize_tensor_func(sub_func, &mut content);
            },
            EinsteinAlternative::Tree(token) => {
                emit(&mut content, token.clone());
                assert(stream_model(content@) =~= before + seq![token@]);
            },
            EinsteinAlternative::Sequence(sub_sequence) => {
                sequentialize_sequence(sub_sequence, &mut content);
            },
            EinsteinAlternative::TensorAccess { tensor_name, span, indexes } => {
                emit(&mut content, emit_access(tensor_name, *span, indexes));
                assert(stream_model(content@) =~= before + seq![
                    access_of(tensor_name@, *span, idents_model(indexes@)),
                ]);
            },
        }
        i += 1;
    }
    assert(sequence.content@.take(i as int) =~= sequence.content@);
    if sequence.use_parens {
        let ghost before = stream_model(stream@);
        emit_group(stream, Delimiter::Parenthesis, content, Span::CallSite);
        assert(stream_model(stream@) =~= before + sequence_code(sequence@));
    } else {
        emit_all(stream, content);
    }
}

/// Takes out of `sequence` the scope that is all there is to it, if it is
/// nothing but one scope with at least one index; else gives back the
/// sequence to lower piece by piece.
pub fn try_extract_func(sequence: EinsteinSequence) -> (r: Result<
    EinsteinFunction,
    EinsteinSequence,
>)
    ensures
        match extract_spec(sequence@) {
            Ok(f) => r matches Ok(got) && got@ == f,
            Err(s) => r matches Err(got) && got@ == s,
        },
{
    let mut sequence = sequence;
    let ghost whole = sequence@;
    let sole = sequence.content.len() == 1 && matches!(
        &sequence.content[0],
        EinsteinAlternative::Func(_)
    );
    if sole {
        match sequence.content.pop() {
            Some(EinsteinAlternative::Func(func)) => {
                assert(func@ == whole.content[0]->Func_0);
                if func.inverted_indexes.len() == 0 {
                    Err(func.sequence)
                } else {
                    Ok(func)
                }
            },
            Some(other) => {
                assert(false);
                sequence.content.push(other);
                Err(sequence)
            },
            None => {
                assert(false);
                Err(sequence)
            },
        }
    } else {
        Err(sequence)
    }
}

/// The code of a scope that is all there is to an expression: a call that
/// builds a new array.
pub fn sequentialize_shape_creation(func: &EinsteinFunction) -> (r: Vec<TokenTree>)
    requires
        func.inverted_indexes.len() > 0,
    ensures
        stream_model(r@) == shape_creation_code(func@),
{
    let direct_indexes = reversed(&func.inverted_indexes);
    let ghost direct = idents_model(direct_indexes@);
    assert(direct == idents_model(func.inverted_indexes@).reverse());
    assert(direct.len() == direct_indexes.len());
    let index = &direct_indexes[0];
    let n: usize = direct_indexes.len();
    let ghost ranks = func.inverted_ranks@;
    let rank = rank_of(&func.inverted_ranks, n - 1);
    let mut shape_creation = emit_path3("tensorism", "building", "TensorBuilding", index.span);
    emit_step(&mut shape_creation, "with", index.span);
    let mut argument = nothing();
    emit(&mut argument, TokenTree::Ident(dimension_ident(&index.name, rank, index.span)));
    assert(stream_model(argument@) =~= seq![word(dimension_name(index@.name, rank), index.span)]);
    emit_group(&mut shape_creation, Delimiter::Parenthesis, argument, index.span);
    assert(direct[0] == index@);
    assert(stream_model(shape_creation@) == shape_chain(direct, ranks, 1));
    let mut i: usize = 1;
    while i < direct_indexes.len()
        invariant
            1 <= i <= direct_indexes.len(),
            n == direct_indexes.len(),
            ranks == func.inverted_ranks@,
            direct == idents_model(direct_indexes@),
            direct.len() == n,
            stream_model(shape_creation@) == shape_chain(direct, ranks, i as int),
        decreases direct_indexes.len() - i,
    {
        let index = &direct_indexes[i];
        let rank = rank_of(&func.inverted_ranks, n - 1 - i);
        emit_mark(&mut shape_creation, '.', index.span);
        emit_word(&mut shape_creation, "with", index.span);
        let mut argument = nothing();
        emit(&mut argument, TokenTree::Ident(dimension_ident(&index.name, rank, index.span)));
        assert(stream_model(argument@) =~= seq![
            word(dimension_name(index@.name, rank), index.span),
        ]);
        emit_group(&mut shape_creation, Delimiter::Parenthesis, argument, index.span);
        i += 1;
    }
    let mut substream = nothing();
    sequentialize_sequence(&func.sequence, &mut substream);
    assert(stream_model(substream@) =~= sequence_code(func.sequence@));
    emit_mark(&mut shape_creation, '.', Span::CallSite);
    emit_word(&mut shape_creation, "define", Span::CallSite);
    emit(&mut shape_creation, emit_closure(&direct_indexes, substream, Span::CallSite));
    shape_creation
}

/// Adds to `stream` the expression that ends the generated block.
pub fn sequentialize_body(sequence: EinsteinSequence, stream: &mut Vec<TokenTree>)
    ensures
        stream_model(final(stream)@) == stream_model(old(stream)@) + body_code(sequence@),
{
    match try_extract_func(sequence) {
        Ok(func) => {
            let code = sequentialize_shape_creation(&func);
            emit_all(stream, code);
        },
        Err(sequence) => sequentialize_sequence(&sequence, stream),
    }
}

/// Generates the code of the expression `sequence`, whose indexes are used
/// as `index_use` tells. Every index has to be used at least once: its
/// extent is taken from its first use.
pub fn sequentialize(sequence: EinsteinSequence, index_use: IndexUse) -> (output: Vec<TokenTree>)
    requires
        every_index_used(index_use@),
    ensures
        stream_model(output@) == sequentialize_spec(sequence@, index_use@),
{
    let mut stream = sequentialize_header(index_use);
    sequentialize_body(sequence, &mut stream);
    let mut output = nothing();
    emit_group(&mut output, Delimiter::Brace, stream, Span::CallSite);
    assert(stream_model(output@) =~= sequentialize_spec(sequence@, index_use@));
    output
}

} // verus!
