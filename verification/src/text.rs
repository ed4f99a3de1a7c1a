//! Text: how tokens are written out, and the small text utilities that the
//! rest of the library shares.
//!
//! Tokens are written one after the other with one space in between, but
//! none behind a punctuation character that is glued to the next; a group
//! is written in its delimiters. This is the plain form in which a lexer
//! library writes a token stream. A compiler may print the same tokens with
//! other spacing, as in `f(& a).0` for `f (& a) . 0`; text that is compared
//! with a compiler's print has to be compared token by token.
use crate::token::{
    lemma_stream_model_take, stream_model, token_model, Delimiter, Spacing, TokenModel, TokenTree,
};
use vstd::prelude::*;
use vstd::std_specs::iter::IteratorSpec;

verus! {

/// `String::push` appends one character to the end of the string.
pub assume_specification[ String::push ](s: &mut String, c: char)
    ensures
        final(s)@ == old(s)@.push(c),
;

/// What opens a group in the delimiter `d`.
pub open spec fn delimiter_open(d: Delimiter) -> Seq<char> {
    match d {
        Delimiter::Parenthesis => "("@,
        Delimiter::Brace => "{ "@,
        Delimiter::Bracket => "["@,
        Delimiter::Bare => Seq::empty(),
    }
}

/// What closes a group in the delimiter `d`.
pub open spec fn delimiter_close(d: Delimiter) -> Seq<char> {
    match d {
        Delimiter::Parenthesis => ")"@,
        Delimiter::Brace => "}"@,
        Delimiter::Bracket => "]"@,
        Delimiter::Bare => Seq::empty(),
    }
}

/// The text of one token. A group is its delimiters around the text of its
/// stream; braces keep a space on their inner side.
pub open spec fn token_text(t: TokenModel) -> Seq<char>
    decreases t,
{
    match t {
        TokenModel::Group { delimiter, stream, .. } => delimiter_open(delimiter) + stream_text(
            stream,
        ) + (if delimiter == Delimiter::Brace && stream.len() > 0 {
            " "@
        } else {
            Seq::empty()
        }) + delimiter_close(delimiter),
        TokenModel::Ident(i) => i.name,
        TokenModel::Punct(p) => seq![p.ch],
        TokenModel::Literal { text, .. } => text,
    }
}

/// What separates token `i` of `s` from the one before it: one space, unless
/// the token is the first or follows a glued punctuation character.
pub open spec fn gap_before(s: Seq<TokenModel>, i: int) -> Seq<char> {
    if i > 0 && !s[i - 1].is_joint() {
        " "@
    } else {
        Seq::empty()
    }
}

/// The text of a sequence of tokens: the texts of its tokens, separated by
/// single spaces except after a glued punctuation character.
pub open spec fn stream_text(s: Seq<TokenModel>) -> Seq<char>
    decreases s,
{
    if s.len() == 0 {
        Seq::empty()
    } else {
        stream_text(s.drop_last()) + gap_before(s, s.len() - 1) + token_text(s.last())
    }
}

/// Appends the text of `token` to `out`.
pub fn write_token(token: &TokenTree, out: &mut String)
    ensures
        final(out)@ == old(out)@ + token_text(token@),
    decreases token,
{
    match token {
        TokenTree::Group(g) => {
            let ghost before = out@;
            match g.delimiter {
                Delimiter::Parenthesis => out.append("("),
                Delimiter::Brace => out.append("{ "),
                Delimiter::Bracket => out.append("["),
                Delimiter::Bare => {},
            }
            write_stream(&g.stream, out);
            if matches!(g.delimiter, Delimiter::Brace) && g.stream.len() > 0 {
                out.append(" ");
            }
            match g.delimiter {
                Delimiter::Parenthesis => out.append(")"),
                Delimiter::Brace => out.append("}"),
                Delimiter::Bracket => out.append("]"),
                Delimiter::Bare => {},
            }
            assert(out@ =~= before + token_text(token@));
        },
        TokenTree::Ident(i) => {
            out.append(i.name.as_str());
        },
        TokenTree::Punct(p) => {
            out.push(p.ch);
            assert(out@ =~= old(out)@ + seq![p.ch]);
        },
        TokenTree::Literal(l) => {
            out.append(l.text.as_str());
        },
    }
}

/// Appends the text of `tokens` to `out`.
pub fn write_stream(tokens: &Vec<TokenTree>, out: &mut String)
    ensures
        final(out)@ == old(out)@ + stream_text(stream_model(tokens@)),
    decreases tokens,
{
    write_stream_from(tokens, 0, out);
    assert(stream_model(tokens@).skip(0) =~= stream_model(tokens@));
}

/// The text of the tokens of `s` from `from` on, as they are written when
/// they stand alone.
pub open spec fn tail_text(s: Seq<TokenModel>, from: int) -> Seq<char> {
    stream_text(s.skip(from))
}

/// Appends to `out` the text of the tokens from `from` on.
pub fn write_stream_from(tokens: &Vec<TokenTree>, from: usize, out: &mut String)
    requires
        from <= tokens.len(),
    ensures
        final(out)@ == old(out)@ + tail_text(stream_model(tokens@), from as int),
    decreases tokens, 0nat,
{
    let ghost whole = stream_model(tokens@).skip(from as int);
    let mut i: usize = from;
    let mut joint = false;
    proof {
        assert(whole.take(0) =~= Seq::<TokenModel>::empty());
        assert(out@ =~= old(out)@ + stream_text(whole.take(0)));
    }
    while i < tokens.len()
        invariant
            from <= i <= tokens.len(),
            whole == stream_model(tokens@).skip(from as int),
            out@ == old(out)@ + stream_text(whole.take(i - from)),
            joint == (i > from && stream_model(tokens@)[i - 1].is_joint()),
        decreases tokens.len() - i,
    {
        proof {
            lemma_stream_model_take(tokens@, i as int);
            let next = whole.take(i - from + 1);
            assert(next.drop_last() =~= whole.take(i - from));
            assert(next.last() == token_model(tokens@[i as int]));
            assert(i > from ==> next[i - from - 1] == stream_model(tokens@)[i - 1]);
        }
        let ghost before = out@;
        if i != from && !joint {
            out.append(" ");
        }
        write_token(&tokens[i], out);
        joint = match &tokens[i] {
            TokenTree::Punct(p) => matches!(p.spacing, Spacing::Joint),
            _ => false,
        };
        proof {
            let next = whole.take(i - from + 1);
            assert(out@ =~= old(out)@ + (stream_text(next.drop_last()) + gap_before(
                next,
                next.len() - 1,
            ) + token_text(next.last())));
        }
        i += 1;
    }
    assert(whole.take(i - from) =~= whole);
}

/// The token with every group that has no brackets put in parentheses, all
/// the way down.
pub open spec fn in_brackets(t: TokenModel) -> TokenModel
    decreases t,
{
    match t {
        TokenModel::Group { delimiter, stream, span } => TokenModel::Group {
            delimiter: if delimiter == Delimiter::Bare {
                Delimiter::Parenthesis
            } else {
                delimiter
            },
            stream: all_in_brackets(stream),
            span,
        },
        _ => t,
    }
}

/// The tokens with every group that has no brackets put in parentheses.
pub open spec fn all_in_brackets(s: Seq<TokenModel>) -> Seq<TokenModel>
    decreases s,
{
    Seq::new(
        s.len(),
        |i: int|
            if 0 <= i < s.len() {
                in_brackets(s[i])
            } else {
                arbitrary()
            },
    )
}

/// The text that the parser of the host language is asked about, for the
/// tokens of `s` from `from` up to, not including, `to`: their text, with
/// every group that has no brackets put in parentheses, so that the text
/// holds one group where the tokens hold one.
pub open spec fn query_text(s: Seq<TokenModel>, from: int, to: int) -> Seq<char> {
    stream_text(all_in_brackets(s.subrange(from, to)))
}

/// Puts every group of `token` that has no brackets in parentheses.
pub fn put_in_brackets(token: &TokenTree) -> (r: TokenTree)
    ensures
        r@ == in_brackets(token@),
    decreases token,
{
    match token {
        TokenTree::Group(g) => {
            let delimiter = match g.delimiter {
                Delimiter::Bare => Delimiter::Parenthesis,
                other => other,
            };
            let stream = put_all_in_brackets(&g.stream, 0, g.stream.len());
            assert(stream_model(g.stream@).subrange(0, g.stream.len() as int) =~= stream_model(
                g.stream@,
            ));
            TokenTree::Group(crate::token::Group { delimiter, stream, span: g.span })
        },
        other => other.clone(),
    }
}

/// Copies the tokens from `from` up to, not including, `to`, with every
/// group that has no brackets put in parentheses.
pub fn put_all_in_brackets(tokens: &Vec<TokenTree>, from: usize, to: usize) -> (r: Vec<TokenTree>)
    requires
        from <= to <= tokens.len(),
    ensures
        stream_model(r@) == all_in_brackets(
            stream_model(tokens@).subrange(from as int, to as int),
        ),
    decreases tokens, 0nat,
{
    let mut out: Vec<TokenTree> = Vec::new();
    let mut i: usize = from;
    while i < to
        invariant
            from <= i <= to <= tokens.len(),
            out.len() == i - from,
            forall|k: int|
                0 <= k < i - from ==> token_model(#[trigger] out[k]) == in_brackets(
                    token_model(tokens[from + k]),
                ),
        decreases to - i,
    {
        let token = put_in_brackets(&tokens[i]);
        out.push(token);
        i += 1;
    }
    assert(stream_model(out@) =~= all_in_brackets(
        stream_model(tokens@).subrange(from as int, to as int),
    ));
    out
}

/// The text of `tokens`.
pub fn stream_to_string(tokens: &Vec<TokenTree>) -> (text: String)
    ensures
        text@ == stream_text(stream_model(tokens@)),
{
    let mut out = String::new();
    write_stream(tokens, &mut out);
    assert(out@ =~= stream_text(stream_model(tokens@)));
    out
}

impl TokenTree {
    /// The text of the token.
    pub fn to_string(&self) -> (text: String)
        ensures
            text@ == token_text(self@),
    {
        let mut out = String::new();
        write_token(self, &mut out);
        assert(out@ =~= token_text(self@));
        out
    }
}

/// The characters of `text`, one by one.
pub fn characters(text: &str) -> (r: Vec<char>)
    ensures
        r@ == text@,
{
    let mut it = text.chars();
    let mut out: Vec<char> = Vec::new();
    assert(out@ + it.remaining() =~= text@);
    loop
        invariant
            out@ + it.remaining() == text@,
            it.decrease() is Some,
        ensures
            out@ == text@,
        decreases it.decrease()->0,
    {
        let ghost before = it.remaining();
        match it.next() {
            Some(c) => {
                assert(out@.push(c) + it.remaining() =~= out@ + before);
                out.push(c);
            },
            None => {
                assert(out@ + before =~= out@);
                break ;
            },
        }
    }
    out
}

/// Whether `c` is white space: a character with the Unicode property
/// `White_Space`.
pub open spec fn is_white_space(c: char) -> bool {
    ||| '\u{9}' <= c <= '\u{d}'
    ||| c == ' '
    ||| c == '\u{85}'
    ||| c == '\u{a0}'
    ||| c == '\u{1680}'
    ||| '\u{2000}' <= c <= '\u{200a}'
    ||| c == '\u{2028}'
    ||| c == '\u{2029}'
    ||| c == '\u{202f}'
    ||| c == '\u{205f}'
    ||| c == '\u{3000}'
}

/// Whether `c` is white space.
pub fn white_space(c: char) -> (b: bool)
    ensures
        b == is_white_space(c),
{
    ('\u{9}' <= c && c <= '\u{d}') || c == ' ' || c == '\u{85}' || c == '\u{a0}' || c
        == '\u{1680}' || ('\u{2000}' <= c && c <= '\u{200a}') || c == '\u{2028}' || c
        == '\u{2029}' || c == '\u{202f}' || c == '\u{205f}' || c == '\u{3000}'
}

/// Where the line that starts at `from` ends: at the first line break from
/// there on, or at the end of the text.
pub open spec fn line_end(s: Seq<char>, from: int) -> int
    decreases s.len() - from,
{
    if 0 <= from < s.len() && s[from] != '\n' {
        line_end(s, from + 1)
    } else {
        from
    }
}

/// The first place from `from` on, and before `end`, that holds no white
/// space; `end` where there is none.
pub open spec fn trim_start(s: Seq<char>, from: int, end: int) -> int
    decreases end - from,
{
    if 0 <= from < end <= s.len() && is_white_space(s[from]) {
        trim_start(s, from + 1, end)
    } else {
        from
    }
}

/// The place after the last character before `end`, and not before `from`,
/// that is no white space; `from` where there is none.
pub open spec fn trim_end(s: Seq<char>, from: int, end: int) -> int
    decreases end - from,
{
    if 0 <= from < end <= s.len() && is_white_space(s[end - 1]) {
        trim_end(s, from, end - 1)
    } else {
        end
    }
}

/// The characters from `from` up to `end`, without the white space that
/// leads and that trails them.
pub open spec fn trimmed(s: Seq<char>, from: int, end: int) -> Seq<char> {
    let start = trim_start(s, from, end);
    s.subrange(start, trim_end(s, start, end))
}

/// The lines of `s` from `from` on, each without its leading and trailing
/// white space and followed by one space.
pub open spec fn simplified_from(s: Seq<char>, from: int) -> Seq<char>
    decreases s.len() - from,
{
    if !(0 <= from <= s.len()) {
        Seq::empty()
    } else {
        let end = line_end(s, from);
        if from <= end < s.len() {
            trimmed(s, from, end).push(' ') + simplified_from(s, end + 1)
        } else {
            trimmed(s, from, end).push(' ')
        }
    }
}

/// The text on one line: every line of `s` without its leading and trailing
/// white space and followed by one space.
pub open spec fn simplified(s: Seq<char>) -> Seq<char> {
    simplified_from(s, 0)
}

/// Writes `text` on one line: every line without its leading and trailing
/// white space, followed by one space.
pub fn simplify_text(text: &str) -> (result: String)
    ensures
        result@ == simplified(text@),
{
    let chars = characters(text);
    let ghost s = chars@;
    let n: usize = chars.len();
    let mut result = String::new();
    let mut start: usize = 0;
    assert(result@ + simplified_from(s, 0) =~= simplified(s));
    loop
        invariant_except_break
            start <= n,
            result@ + simplified_from(s, start as int) == simplified(s),
        invariant
            n == chars.len(),
            s == chars@,
            s == text@,
        ensures
            result@ == simplified(s),
        decreases n - start,
    {
        let ghost before = result@;
        let mut end: usize = start;
        while end < n && chars[end] != '\n'
            invariant
                n == chars.len(),
                s == chars@,
                start <= end <= n,
                line_end(s, start as int) == line_end(s, end as int),
            decreases n - end,
        {
            end += 1;
        }
        let mut a: usize = start;
        while a < end && white_space(chars[a])
            invariant
                n == chars.len(),
                s == chars@,
                start <= a <= end <= n,
                trim_start(s, start as int, end as int) == trim_start(s, a as int, end as int),
            decreases end - a,
        {
            a += 1;
        }
        let mut b: usize = end;
        while b > a && white_space(chars[b - 1])
            invariant
                n == chars.len(),
                s == chars@,
                a <= b <= end <= n,
                trim_end(s, a as int, end as int) == trim_end(s, a as int, b as int),
            decreases b - a,
        {
            b -= 1;
        }
        assert(trimmed(s, start as int, end as int) == s.subrange(a as int, b as int));
        let mut k: usize = a;
        assert(before + s.subrange(a as int, k as int) =~= before);
        while k < b
            invariant
                n == chars.len(),
                s == chars@,
                a <= k <= b <= n,
                result@ == before + s.subrange(a as int, k as int),
            decreases b - k,
        {
            result.push(chars[k]);
            assert(before + s.subrange(a as int, k + 1) =~= (before + s.subrange(
                a as int,
                k as int,
            )).push(s[k as int]));
            k += 1;
        }
        result.push(' ');
        proof {
            let line = trimmed(s, start as int, end as int).push(' ');
            assert(result@ =~= before + line);
            if end < n {
                assert(before + (line + simplified_from(s, end + 1)) =~= result@
                    + simplified_from(s, end + 1));
            } else {
                assert(before + line =~= result@);
            }
        }
        if end == n {
            break ;
        }
        start = end + 1;
    }
    result
}

} // verus!
