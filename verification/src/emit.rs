//! Building generated code, token by token.
use crate::token::{
    stream_model, Delimiter, Group, Ident, IdentModel, Literal, Punct, Spacing, Span, TokenModel,
    TokenTree,
};
use vstd::prelude::*;

verus! {

/// The identifier `name` at `span`.
pub open spec fn word(name: Seq<char>, span: Span) -> TokenModel {
    TokenModel::Ident(IdentModel { name, span })
}

/// The punctuation character `ch`, standing alone at `span`.
pub open spec fn mark(ch: char, span: Span) -> TokenModel {
    TokenModel::Punct(Punct { ch, spacing: Spacing::Alone, span })
}

/// The punctuation character `ch`, glued to its successor, at `span`.
pub open spec fn glue(ch: char, span: Span) -> TokenModel {
    TokenModel::Punct(Punct { ch, spacing: Spacing::Joint, span })
}

/// The literal written `text` at `span`.
pub open spec fn literal(text: Seq<char>, span: Span) -> TokenModel {
    TokenModel::Literal { text, span }
}

/// The tokens `stream` in the delimiter `delimiter`, at `span`.
pub open spec fn grouped(delimiter: Delimiter, stream: Seq<TokenModel>, span: Span) -> TokenModel {
    TokenModel::Group { delimiter, stream, span }
}

/// One step of a path: `:: name`.
pub open spec fn step(name: Seq<char>, span: Span) -> Seq<TokenModel> {
    seq![glue(':', span), mark(':', span), word(name, span)]
}

/// The identifiers `names`, separated by commas at `span`.
pub open spec fn separated(names: Seq<IdentModel>, span: Span) -> Seq<TokenModel>
    decreases names.len(),
{
    if names.len() == 0 {
        Seq::empty()
    } else if names.len() == 1 {
        seq![TokenModel::Ident(names[0])]
    } else {
        separated(names.drop_last(), span) + seq![mark(',', span), TokenModel::Ident(names.last())]
    }
}

/// The digit that stands for `d`.
pub open spec fn digit(d: int) -> char {
    if d == 0 {
        '0'
    } else if d == 1 {
        '1'
    } else if d == 2 {
        '2'
    } else if d == 3 {
        '3'
    } else if d == 4 {
        '4'
    } else if d == 5 {
        '5'
    } else if d == 6 {
        '6'
    } else if d == 7 {
        '7'
    } else if d == 8 {
        '8'
    } else {
        '9'
    }
}

/// The number `n` written in base ten, without sign or suffix.
pub open spec fn decimal(n: nat) -> Seq<char>
    decreases n,
{
    if n < 10 {
        seq![digit(n as int)]
    } else {
        decimal(n / 10).push(digit((n % 10) as int))
    }
}

/// Adds `token` at the end of `out`.
pub fn emit(out: &mut Vec<TokenTree>, token: TokenTree)
    ensures
        stream_model(final(out)@) == stream_model(old(out)@).push(token@),
{
    out.push(token);
    assert(stream_model(out@) =~= stream_model(old(out)@).push(token@));
}

/// Adds the identifier `name`.
pub fn emit_word(out: &mut Vec<TokenTree>, name: &str, span: Span)
    ensures
        stream_model(final(out)@) == stream_model(old(out)@).push(word(name@, span)),
{
    emit(out, TokenTree::Ident(Ident::new(name, span)));
}

/// Adds the identifier `ident`, as it is.
pub fn emit_ident(out: &mut Vec<TokenTree>, ident: &Ident)
    ensures
        stream_model(final(out)@) == stream_model(old(out)@).push(TokenModel::Ident(ident@)),
{
    emit(out, TokenTree::Ident(ident.clone()));
}

/// Adds the punctuation character `ch`, standing alone.
pub fn emit_mark(out: &mut Vec<TokenTree>, ch: char, span: Span)
    ensures
        stream_model(final(out)@) == stream_model(old(out)@).push(mark(ch, span)),
{
    emit(out, TokenTree::Punct(Punct::new(ch, Spacing::Alone, span)));
}

/// Adds the punctuation character `ch`, glued to its successor.
pub fn emit_glue(out: &mut Vec<TokenTree>, ch: char, span: Span)
    ensures
        stream_model(final(out)@) == stream_model(old(out)@).push(glue(ch, span)),
{
    emit(out, TokenTree::Punct(Punct::new(ch, Spacing::Joint, span)));
}

/// Adds the literal written `text`.
pub fn emit_literal(out: &mut Vec<TokenTree>, text: &str, span: Span)
    ensures
        stream_model(final(out)@) == stream_model(old(out)@).push(literal(text@, span)),
{
    emit(out, TokenTree::Literal(Literal::new(text, span)));
}

/// Adds the tokens `inner` as one group.
pub fn emit_group(out: &mut Vec<TokenTree>, delimiter: Delimiter, inner: Vec<TokenTree>, span: Span)
    ensures
        stream_model(final(out)@) == stream_model(old(out)@).push(
            grouped(delimiter, stream_model(inner@), span),
        ),
{
    emit(out, TokenTree::Group(Group::new(delimiter, inner, span)));
}

/// Adds one step of a path: `:: name`.
pub fn emit_step(out: &mut Vec<TokenTree>, name: &str, span: Span)
    ensures
        stream_model(final(out)@) == stream_model(old(out)@) + step(name@, span),
{
    emit_glue(out, ':', span);
    emit_mark(out, ':', span);
    emit_word(out, name, span);
    assert(stream_model(out@) =~= stream_model(old(out)@) + step(name@, span));
}

/// Adds the tokens `more` at the end of `out`.
pub fn emit_all(out: &mut Vec<TokenTree>, more: Vec<TokenTree>)
    ensures
        stream_model(final(out)@) == stream_model(old(out)@) + stream_model(more@),
{
    let mut more = more;
    let ghost all = stream_model(more@);
    let ghost mut done: Seq<TokenModel> = Seq::empty();
    assert(stream_model(old(out)@) + done =~= stream_model(old(out)@));
    assert(done + stream_model(more@) =~= all);
    while more.len() > 0
        invariant
            stream_model(out@) == stream_model(old(out)@) + done,
            done + stream_model(more@) == all,
        decreases more.len(),
    {
        let ghost rest = stream_model(more@);
        let token = more.remove(0);
        proof {
            assert(stream_model(more@) =~= rest.drop_first());
            assert(token@ == rest[0]);
            assert(done.push(token@) + stream_model(more@) =~= done + rest);
            assert((stream_model(old(out)@) + done).push(token@) =~= stream_model(old(out)@)
                + done.push(token@));
            done = done.push(token@);
        }
        emit(out, token);
    }
    assert(done + Seq::<TokenModel>::empty() =~= done);
}

/// Adds the identifiers `names`, separated by commas.
pub fn emit_separated(out: &mut Vec<TokenTree>, names: &Vec<Ident>, span: Span)
    ensures
        stream_model(final(out)@) == stream_model(old(out)@) + separated(
            crate::token::idents_model(names@),
            span,
        ),
{
    let ghost all = crate::token::idents_model(names@);
    let mut i: usize = 0;
    assert(all.take(0) =~= Seq::<IdentModel>::empty());
    assert(stream_model(out@) =~= stream_model(old(out)@) + separated(all.take(0), span));
    while i < names.len()
        invariant
            i <= names.len(),
            all == crate::token::idents_model(names@),
            stream_model(out@) == stream_model(old(out)@) + separated(all.take(i as int), span),
        decreases names.len() - i,
    {
        let ghost before = stream_model(out@);
        proof {
            assert(all.take(i + 1).drop_last() =~= all.take(i as int));
            assert(all.take(i + 1).last() == names@[i as int]@);
            assert(all.take(i + 1)[0] == all[0]);
        }
        if i != 0 {
            emit_mark(out, ',', span);
        }
        emit_ident(out, &names[i]);
        proof {
            let next = all.take(i + 1);
            if i == 0 {
                assert(separated(all.take(0), span) =~= Seq::<TokenModel>::empty());
                assert(stream_model(out@) =~= stream_model(old(out)@) + separated(next, span));
            } else {
                assert(stream_model(out@) =~= stream_model(old(out)@) + (separated(
                    next.drop_last(),
                    span,
                ) + seq![mark(',', span), TokenModel::Ident(next.last())]));
            }
        }
        i += 1;
    }
    assert(all.take(i as int) =~= all);
}

/// The character of the digit `d`.
fn digit_char(d: usize) -> (c: char)
    requires
        d < 10,
    ensures
        c == digit(d as int),
{
    if d == 0 {
        '0'
    } else if d == 1 {
        '1'
    } else if d == 2 {
        '2'
    } else if d == 3 {
        '3'
    } else if d == 4 {
        '4'
    } else if d == 5 {
        '5'
    } else if d == 6 {
        '6'
    } else if d == 7 {
        '7'
    } else if d == 8 {
        '8'
    } else {
        '9'
    }
}

/// Appends `n`, written in base ten, to `out`.
pub fn write_decimal(n: usize, out: &mut String)
    ensures
        final(out)@ == old(out)@ + decimal(n as nat),
    decreases n,
{
    if n >= 10 {
        write_decimal(n / 10, out);
    }
    out.push(digit_char(n % 10));
    assert(out@ =~= old(out)@ + decimal(n as nat));
}

/// Adds the number `n` as a literal without suffix.
pub fn emit_number(out: &mut Vec<TokenTree>, n: usize, span: Span)
    ensures
        stream_model(final(out)@) == stream_model(old(out)@).push(
            literal(decimal(n as nat), span),
        ),
{
    let mut text = String::new();
    write_decimal(n, &mut text);
    assert(text@ =~= decimal(n as nat));
    emit(out, TokenTree::Literal(Literal { text, span }));
}

} // verus!
