//! The lexer of the `.flash` format.
use vstd::prelude::*;
use crate::text::{chars_of, string_of};

verus! {

/// A token of the `.flash` format.
#[derive(Debug)]
pub enum Token {
    Eq,
    Colon,
    LBracket,
    RBracket,
    LBrace,
    RBrace,
    Pipe,
    Comma,
    Alias,
    To,
    Newline,
    WS(String),
    Text(String),
    Comment(String),
    Error,
}

/// A token with the span of characters `[start, end)` it was read from.
#[derive(Debug)]
pub struct SpannedToken {
    pub token: Token,
    pub start: usize,
    pub end: usize,
}

pub enum TokenView {
    Eq,
    Colon,
    LBracket,
    RBracket,
    LBrace,
    RBrace,
    Pipe,
    Comma,
    Alias,
    To,
    Newline,
    WS(Seq<char>),
    Text(Seq<char>),
    Comment(Seq<char>),
    Error,
}

impl View for Token {
    type V = TokenView;

    open spec fn view(&self) -> TokenView {
        match self {
            Token::Eq => TokenView::Eq,
            Token::Colon => TokenView::Colon,
            Token::LBracket => TokenView::LBracket,
            Token::RBracket => TokenView::RBracket,
            Token::LBrace => TokenView::LBrace,
            Token::RBrace => TokenView::RBrace,
            Token::Pipe => TokenView::Pipe,
            Token::Comma => TokenView::Comma,
            Token::Alias => TokenView::Alias,
            Token::To => TokenView::To,
            Token::Newline => TokenView::Newline,
            Token::WS(s) => TokenView::WS(s@),
            Token::Text(s) => TokenView::Text(s@),
            Token::Comment(s) => TokenView::Comment(s@),
            Token::Error => TokenView::Error,
        }
    }
}

pub struct SpannedView {
    pub token: TokenView,
    pub start: int,
    pub end: int,
}

impl View for SpannedToken {
    type V = SpannedView;

    open spec fn view(&self) -> SpannedView {
        SpannedView { token: self.token@, start: self.start as int, end: self.end as int }
    }
}

pub open spec fn tokens_view(v: Seq<SpannedToken>) -> Seq<SpannedView> {
    v.map_values(|t: SpannedToken| t@)
}

/// Characters that end a text run.
pub open spec fn is_delimiter(c: char) -> bool {
    c == ' ' || c == '\t' || c == '\n' || c == ':' || c == '=' || c == '[' || c == ']' || c == '{'
        || c == '}' || c == ',' || c == '|'
}

pub open spec fn is_blank(c: char) -> bool {
    c == ' ' || c == '\t'
}

/// End of the run of blanks that starts at `i`.
pub open spec fn blank_end(s: Seq<char>, i: int) -> int
    decreases s.len() - i,
{
    if i < 0 || i >= s.len() || !is_blank(s[i]) { i } else { blank_end(s, i + 1) }
}

/// End of the run of non-delimiters that starts at `i`.
pub open spec fn text_end(s: Seq<char>, i: int) -> int
    decreases s.len() - i,
{
    if i < 0 || i >= s.len() || is_delimiter(s[i]) { i } else { text_end(s, i + 1) }
}

/// Position of the first newline from `i` on, or the end of input.
pub open spec fn line_end(s: Seq<char>, i: int) -> int
    decreases s.len() - i,
{
    if i < 0 || i >= s.len() || s[i] == '\n' { i } else { line_end(s, i + 1) }
}

pub open spec fn single_token(c: char) -> Option<TokenView> {
    if c == '=' { Some(TokenView::Eq) }
    else if c == ':' { Some(TokenView::Colon) }
    else if c == '[' { Some(TokenView::LBracket) }
    else if c == ']' { Some(TokenView::RBracket) }
    else if c == '{' { Some(TokenView::LBrace) }
    else if c == '}' { Some(TokenView::RBrace) }
    else if c == '|' { Some(TokenView::Pipe) }
    else if c == ',' { Some(TokenView::Comma) }
    else if c == '\n' { Some(TokenView::Newline) }
    else { None }
}

/// A text run, or a keyword where the whole run is one.
pub open spec fn word(t: Seq<char>) -> TokenView {
    if t == seq!['a', 'l', 'i', 'a', 's'] {
        TokenView::Alias
    } else if t == seq!['t', 'o'] {
        TokenView::To
    } else {
        TokenView::Text(t)
    }
}

/// The token that starts at `i`, with its end.
pub open spec fn token_at(s: Seq<char>, i: int) -> (TokenView, int) {
    if i + 1 < s.len() && s[i] == '/' && s[i + 1] == '/' {
        (TokenView::Comment(s.subrange(i, line_end(s, i))), line_end(s, i))
    } else if single_token(s[i]) is Some {
        (single_token(s[i])->Some_0, i + 1)
    } else if is_blank(s[i]) {
        (TokenView::WS(s.subrange(i, blank_end(s, i))), blank_end(s, i))
    } else {
        (word(s.subrange(i, text_end(s, i))), text_end(s, i))
    }
}

/// The tokens of `s` from position `i` on, each the longest that fits there.
pub open spec fn lex_from(s: Seq<char>, i: int) -> Seq<SpannedView>
    decreases s.len() - i,
{
    if i < 0 || i >= s.len() {
        Seq::empty()
    } else {
        let (t, e) = token_at(s, i);
        if e <= i || e > s.len() {
            Seq::empty()
        } else {
            seq![SpannedView { token: t, start: i, end: e }] + lex_from(s, e)
        }
    }
}

pub open spec fn lex(s: Seq<char>) -> Seq<SpannedView> {
    lex_from(s, 0)
}

fn delimiter(c: char) -> (r: bool)
    ensures
        r == is_delimiter(c),
{
    c == ' ' || c == '\t' || c == '\n' || c == ':' || c == '=' || c == '[' || c == ']' || c == '{'
        || c == '}' || c == ',' || c == '|'
}

fn single(c: char) -> (r: Option<Token>)
    ensures
        match r {
            Some(t) => single_token(c) == Some(t@),
            None => single_token(c) is None,
        },
{
    if c == '=' { Some(Token::Eq) }
    else if c == ':' { Some(Token::Colon) }
    else if c == '[' { Some(Token::LBracket) }
    else if c == ']' { Some(Token::RBracket) }
    else if c == '{' { Some(Token::LBrace) }
    else if c == '}' { Some(Token::RBrace) }
    else if c == '|' { Some(Token::Pipe) }
    else if c == ',' { Some(Token::Comma) }
    else if c == '\n' { Some(Token::Newline) }
    else { None }
}

/// Reads the token that starts at `i`.
fn read_token(cs: &Vec<char>, i: usize) -> (r: (Token, usize))
    requires
        i < cs.len(),
    ensures
        (r.0@, r.1 as int) == token_at(cs@, i as int),
        i < r.1 <= cs.len(),
{
    let c = cs[i];
    if c == '/' && i + 1 < cs.len() && cs[i + 1] == '/' {
        let mut e = i;
        while e < cs.len() && cs[e] != '\n'
            invariant
                i <= e <= cs.len(),
                line_end(cs@, e as int) == line_end(cs@, i as int),
            decreases cs.len() - e,
        {
            e = e + 1;
        }
        return (Token::Comment(string_of(cs, i, e)), e);
    }
    match single(c) {
        Some(t) => { return (t, i + 1); },
        None => {},
    }
    if c == ' ' || c == '\t' {
        let mut e = i;
        while e < cs.len() && (cs[e] == ' ' || cs[e] == '\t')
            invariant
                i <= e <= cs.len(),
                blank_end(cs@, e as int) == blank_end(cs@, i as int),
                e == i ==> is_blank(cs@[i as int]),
            decreases cs.len() - e,
        {
            e = e + 1;
        }
        return (Token::WS(string_of(cs, i, e)), e);
    }
    let mut e = i;
    while e < cs.len() && !delimiter(cs[e])
        invariant
            i <= e <= cs.len(),
            text_end(cs@, e as int) == text_end(cs@, i as int),
            e == i ==> !is_delimiter(cs@[i as int]),
        decreases cs.len() - e,
    {
        e = e + 1;
    }
    assert(e > i);
    let ghost t = cs@.subrange(i as int, e as int);
    if e - i == 5 && cs[i] == 'a' && cs[i + 1] == 'l' && cs[i + 2] == 'i' && cs[i + 3] == 'a' && cs[i + 4] == 's' {
        assert(t =~= seq!['a', 'l', 'i', 'a', 's']);
        return (Token::Alias, e);
    }
    assert(t != seq!['a', 'l', 'i', 'a', 's']) by {
        if t == seq!['a', 'l', 'i', 'a', 's'] {
            assert(t.len() == e - i);
            assert(t[0] == cs@[i as int] && t[1] == cs@[i + 1] && t[2] == cs@[i + 2] && t[3] == cs@[i + 3] && t[4] == cs@[i + 4]);
        }
    }
    if e - i == 2 && cs[i] == 't' && cs[i + 1] == 'o' {
        assert(t =~= seq!['t', 'o']);
        return (Token::To, e);
    }
    assert(t != seq!['t', 'o']) by {
        if t == seq!['t', 'o'] {
            assert(t.len() == e - i);
            assert(t[0] == cs@[i as int] && t[1] == cs@[i + 1]);
        }
    }
    (Token::Text(string_of(cs, i, e)), e)
}

/// Splits the input into tokens: at each position the longest token that
/// fits, keywords before text, comments from `//` to the end of the line.
pub fn lex_chars(cs: &Vec<char>) -> (r: Vec<SpannedToken>)
    ensures
        tokens_view(r@) == lex(cs@),
{
    let mut r: Vec<SpannedToken> = Vec::new();
    let mut i: usize = 0;
    while i < cs.len()
        invariant
            i <= cs.len(),
            tokens_view(r@) + lex_from(cs@, i as int) == lex(cs@),
        decreases cs.len() - i,
    {
        let (t, e) = read_token(cs, i);
        let ghost before = tokens_view(r@);
        let ghost sv = SpannedView { token: t@, start: i as int, end: e as int };
        r.push(SpannedToken { token: t, start: i, end: e });
        proof {
            assert(lex_from(cs@, i as int) == seq![sv] + lex_from(cs@, e as int));
            assert(tokens_view(r@) =~= before.push(sv));
            assert(before + (seq![sv] + lex_from(cs@, e as int)) =~= before.push(sv) + lex_from(cs@, e as int));
        }
        i = e;
    }
    assert(tokens_view(r@) =~= tokens_view(r@) + lex_from(cs@, i as int));
    r
}

/// The tokens of a source text.
pub fn lex_str(s: &str) -> (r: Vec<SpannedToken>)
    ensures
        tokens_view(r@) == lex(s@),
{
    let cs = chars_of(s);
    lex_chars(&cs)
}

} // verus!
