//! Parsing of the `.flash` format: each line is read as one item, and a
//! builder folds the items into notes, checked against the note models.
use vstd::prelude::*;
use crate::lexer::{SpannedToken, SpannedView, Token, TokenView, lex, lex_str, tokens_view};
use crate::note::{text_coalesced, Cloze, ClozeView, ModelView, Note, NoteField, NoteFieldView, NoteModel, NoteView, TextElement, TextElementView, clone_fields, clone_strings, content_view, fields_view, models_view, notes_view, strings_view};
use crate::text::{chars_of, push_str, trim, trimmed};

verus! {

/// One line of a `.flash` file, as read.
#[derive(Debug)]
pub enum FlashItem {
    NoteModel(String),
    Alias { from: String, to: String },
    Tags(Vec<String>),
    Field { name: String, content: Vec<TextElement> },
    Comment(String),
    BlankLine,
}

pub enum ItemView {
    NoteModel(Seq<char>),
    Alias { from: Seq<char>, to: Seq<char> },
    Tags(Seq<Seq<char>>),
    Field { name: Seq<char>, content: Seq<TextElementView> },
    Comment(Seq<char>),
    BlankLine,
}

impl View for FlashItem {
    type V = ItemView;

    open spec fn view(&self) -> ItemView {
        match self {
            FlashItem::NoteModel(s) => ItemView::NoteModel(s@),
            FlashItem::Alias { from, to } => ItemView::Alias { from: from@, to: to@ },
            FlashItem::Tags(v) => ItemView::Tags(strings_view(v@)),
            FlashItem::Field { name, content } => ItemView::Field { name: name@, content: content_view(content@) },
            FlashItem::Comment(s) => ItemView::Comment(s@),
            FlashItem::BlankLine => ItemView::BlankLine,
        }
    }
}

pub open spec fn opt_item_view(o: Option<FlashItem>) -> Option<ItemView> {
    match o {
        Some(i) => Some(i@),
        None => None,
    }
}

/// The source text of a token.
pub open spec fn tok_text(t: TokenView) -> Seq<char> {
    match t {
        TokenView::Eq => seq!['='],
        TokenView::Colon => seq![':'],
        TokenView::LBracket => seq!['['],
        TokenView::RBracket => seq![']'],
        TokenView::LBrace => seq!['{'],
        TokenView::RBrace => seq!['}'],
        TokenView::Pipe => seq!['|'],
        TokenView::Comma => seq![','],
        TokenView::Alias => seq!['a', 'l', 'i', 'a', 's'],
        TokenView::To => seq!['t', 'o'],
        TokenView::Newline => seq!['\n'],
        TokenView::WS(s) => s,
        TokenView::Text(s) => s,
        TokenView::Comment(s) => s,
        TokenView::Error => Seq::empty(),
    }
}

/// The source text of tokens `a..b`.
pub open spec fn concat_text(t: Seq<SpannedView>, a: int, b: int) -> Seq<char>
    decreases b - a,
{
    if b <= a { Seq::empty() } else { concat_text(t, a, b - 1) + tok_text(t[b - 1].token) }
}

/// Token classes that may form a run.
pub const NAME_PART: u8 = 0;
pub const TAG_PART: u8 = 1;
pub const CLOZE_PART: u8 = 2;
pub const TEXT_PART: u8 = 3;

pub open spec fn in_class(x: TokenView, class: u8) -> bool {
    if class == NAME_PART {
        x is Text || x is WS
    } else if class == TAG_PART {
        x is Text || x is WS || x is Alias || x is To
    } else if class == CLOZE_PART {
        x is Text || x is WS || x is Alias || x is To || x is Comma || x is Colon
    } else {
        x is Text || x is WS || x is Alias || x is To || x is Comma || x is Colon || x is Eq
            || x is LBracket || x is RBracket
    }
}

/// End of the run of tokens of `class` that starts at `k`, below `c`.
pub open spec fn run_end(t: Seq<SpannedView>, k: int, c: int, class: u8) -> int
    decreases c - k,
{
    if k < 0 || k >= c || k >= t.len() || !in_class(t[k].token, class) { k } else { run_end(t, k + 1, c, class) }
}

/// First position from `k` on, below `c`, that is not whitespace.
pub open spec fn skip_ws(t: Seq<SpannedView>, k: int, c: int) -> int
    decreases c - k,
{
    if k < 0 || k >= c || k >= t.len() || !(t[k].token is WS) { k } else { skip_ws(t, k + 1, c) }
}

/// `[tag, ...]` after its opening bracket: the tags and the position after `]`.
pub open spec fn tags_from(t: Seq<SpannedView>, k: int, c: int) -> Option<(Seq<Seq<char>>, int)>
    decreases c - k,
{
    if k < 0 || k >= c || c > t.len() {
        None
    } else if t[k].token is RBracket {
        Some((Seq::empty(), k + 1))
    } else if in_class(t[k].token, TAG_PART) {
        let e = run_end(t, k, c, TAG_PART);
        let tag = trimmed(concat_text(t, k, e));
        if e <= k || e >= c {
            None
        } else if t[e].token is RBracket {
            Some((seq![tag], e + 1))
        } else if t[e].token is Comma {
            match tags_from(t, e + 1, c) {
                Some((ts, end)) => Some((seq![tag] + ts, end)),
                None => None,
            }
        } else {
            None
        }
    } else {
        None
    }
}

/// A cloze whose `{` stands at `k`: the element and the position after `}`.
pub open spec fn cloze_at(t: Seq<SpannedView>, k: int, c: int) -> Option<(TextElementView, int)> {
    let a = run_end(t, k + 1, c, CLOZE_PART);
    if a <= k + 1 || a >= c {
        None
    } else if t[a].token is Pipe {
        let h = run_end(t, a + 1, c, CLOZE_PART);
        if h <= a + 1 || h >= c || !(t[h].token is RBrace) {
            None
        } else {
            Some((TextElementView::Cloze(ClozeView {
                id: 0,
                answer: trimmed(concat_text(t, k + 1, a)),
                hint: Some(trimmed(concat_text(t, a + 1, h))),
            }), h + 1))
        }
    } else if t[a].token is RBrace {
        Some((TextElementView::Cloze(ClozeView { id: 0, answer: trimmed(concat_text(t, k + 1, a)), hint: None }), a + 1))
    } else {
        None
    }
}

/// Field content from `k` to `c`: clozes and maximal runs of text.
pub open spec fn content_from(t: Seq<SpannedView>, k: int, c: int) -> Option<Seq<TextElementView>>
    decreases c - k,
{
    if k < 0 || k >= c || c > t.len() {
        if k == c { Some(Seq::empty()) } else { None }
    } else if t[k].token is LBrace {
        match cloze_at(t, k, c) {
            Some((e, next)) => if next <= k || next > c {
                None
            } else {
                match content_from(t, next, c) {
                    Some(rest) => Some(seq![e] + rest),
                    None => None,
                }
            },
            None => None,
        }
    } else if in_class(t[k].token, TEXT_PART) {
        let e = run_end(t, k, c, TEXT_PART);
        if e <= k || e > c {
            None
        } else {
            match content_from(t, e, c) {
                Some(rest) => Some(seq![TextElementView::Text(concat_text(t, k, e))] + rest),
                None => None,
            }
        }
    } else {
        None
    }
}

pub open spec fn model_item(t: Seq<SpannedView>, k: int, c: int) -> Option<ItemView> {
    let m = run_end(t, k + 1, c, NAME_PART);
    if m < c && t[m].token is Eq && skip_ws(t, m + 1, c) == c {
        Some(ItemView::NoteModel(trimmed(concat_text(t, k + 1, m))))
    } else {
        None
    }
}

pub open spec fn alias_item(t: Seq<SpannedView>, k: int, c: int) -> Option<ItemView> {
    let a = skip_ws(t, k + 1, c);
    let b = skip_ws(t, a + 1, c);
    let d = skip_ws(t, b + 1, c);
    if k + 1 < c && t[k + 1].token is WS && a < c && t[a].token is Text && b < c && t[b].token is To
        && d < c && t[d].token is Text && skip_ws(t, d + 1, c) == c {
        Some(ItemView::Alias { from: tok_text(t[a].token), to: tok_text(t[d].token) })
    } else {
        None
    }
}

pub open spec fn tags_item(t: Seq<SpannedView>, k: int, c: int) -> Option<ItemView> {
    match tags_from(t, k + 1, c) {
        Some((ts, end)) => if skip_ws(t, end, c) == c { Some(ItemView::Tags(ts)) } else { None },
        None => None,
    }
}

pub open spec fn field_item(t: Seq<SpannedView>, k: int, c: int) -> Option<ItemView> {
    match content_from(t, skip_ws(t, k + 2, c), c) {
        Some(content) => Some(ItemView::Field { name: tok_text(t[k].token), content }),
        None => None,
    }
}

pub open spec fn is_name_token(x: TokenView) -> bool {
    x is Text || x is Alias || x is To
}

/// End of the significant part of the line `i..j`: a trailing comment is left out.
pub open spec fn code_end(t: Seq<SpannedView>, i: int, j: int) -> int {
    if j > i && t[j - 1].token is Comment { j - 1 } else { j }
}

/// The item that the line of tokens `i..j` holds; `None` for a malformed line.
pub open spec fn line_item(t: Seq<SpannedView>, i: int, j: int) -> Option<ItemView> {
    let c = code_end(t, i, j);
    let k = skip_ws(t, i, c);
    if k >= c {
        if c < j { Some(ItemView::Comment(tok_text(t[c].token))) } else { Some(ItemView::BlankLine) }
    } else if is_name_token(t[k].token) && k + 1 < c && t[k + 1].token is Colon {
        field_item(t, k, c)
    } else if t[k].token is Alias {
        alias_item(t, k, c)
    } else if t[k].token is Eq {
        model_item(t, k, c)
    } else if t[k].token is LBracket {
        tags_item(t, k, c)
    } else {
        None
    }
}

/// What a diagnostic reports.
#[derive(Debug)]
pub enum DiagnosticKind {
    UnknownModel { name: String, available: Vec<String> },
    UnknownField { model: String, field: String, available: Vec<String> },
    InvalidAliasTarget { model: String, target: String },
    ModelNotSpecified,
    DuplicateField { field: String },
    Syntax,
}

/// A problem found while parsing, with the span of characters `[start, end)`
/// of the line it concerns.
#[derive(Debug)]
pub struct Diagnostic {
    pub kind: DiagnosticKind,
    pub start: usize,
    pub end: usize,
}

pub enum DiagnosticKindView {
    UnknownModel { name: Seq<char>, available: Seq<Seq<char>> },
    UnknownField { model: Seq<char>, field: Seq<char>, available: Seq<Seq<char>> },
    InvalidAliasTarget { model: Seq<char>, target: Seq<char> },
    ModelNotSpecified,
    DuplicateField { field: Seq<char> },
    Syntax,
}

pub struct DiagnosticView {
    pub kind: DiagnosticKindView,
    pub start: int,
    pub end: int,
}

impl View for DiagnosticKind {
    type V = DiagnosticKindView;

    open spec fn view(&self) -> DiagnosticKindView {
        match self {
            DiagnosticKind::UnknownModel { name, available } =>
                DiagnosticKindView::UnknownModel { name: name@, available: strings_view(available@) },
            DiagnosticKind::UnknownField { model, field, available } =>
                DiagnosticKindView::UnknownField { model: model@, field: field@, available: strings_view(available@) },
            DiagnosticKind::InvalidAliasTarget { model, target } =>
                DiagnosticKindView::InvalidAliasTarget { model: model@, target: target@ },
            DiagnosticKind::ModelNotSpecified => DiagnosticKindView::ModelNotSpecified,
            DiagnosticKind::DuplicateField { field } => DiagnosticKindView::DuplicateField { field: field@ },
            DiagnosticKind::Syntax => DiagnosticKindView::Syntax,
        }
    }
}

impl View for Diagnostic {
    type V = DiagnosticView;

    open spec fn view(&self) -> DiagnosticView {
        DiagnosticView { kind: self.kind@, start: self.start as int, end: self.end as int }
    }
}

pub open spec fn diagnostics_view(v: Seq<Diagnostic>) -> Seq<DiagnosticView> {
    v.map_values(|d: Diagnostic| d@)
}

// Executable counterparts.

fn token_text(t: &Token) -> (r: String)
    ensures
        r@ == tok_text(t@),
{
    proof {
        reveal_strlit("=");
        reveal_strlit(":");
        reveal_strlit("[");
        reveal_strlit("]");
        reveal_strlit("{");
        reveal_strlit("}");
        reveal_strlit("|");
        reveal_strlit(",");
        reveal_strlit("alias");
        reveal_strlit("to");
        reveal_strlit("\n");
    }
    let mut r = String::new();
    match t {
        Token::Eq => push_str(&mut r, "="),
        Token::Colon => push_str(&mut r, ":"),
        Token::LBracket => push_str(&mut r, "["),
        Token::RBracket => push_str(&mut r, "]"),
        Token::LBrace => push_str(&mut r, "{"),
        Token::RBrace => push_str(&mut r, "}"),
        Token::Pipe => push_str(&mut r, "|"),
        Token::Comma => push_str(&mut r, ","),
        Token::Alias => push_str(&mut r, "alias"),
        Token::To => push_str(&mut r, "to"),
        Token::Newline => push_str(&mut r, "\n"),
        Token::WS(s) => push_str(&mut r, s.as_str()),
        Token::Text(s) => push_str(&mut r, s.as_str()),
        Token::Comment(s) => push_str(&mut r, s.as_str()),
        Token::Error => {},
    }
    r
}

fn concat_tokens(t: &Vec<SpannedToken>, a: usize, b: usize) -> (r: String)
    requires
        a <= b <= t.len(),
    ensures
        r@ == concat_text(tokens_view(t@), a as int, b as int),
{
    let ghost tv = tokens_view(t@);
    let mut r = String::new();
    let mut k: usize = a;
    while k < b
        invariant
            a <= k <= b <= t.len(),
            tv == tokens_view(t@),
            r@ == concat_text(tv, a as int, k as int),
        decreases b - k,
    {
        let s = token_text(&t[k].token);
        push_str(&mut r, s.as_str());
        k = k + 1;
    }
    r
}

fn trimmed_text(t: &Vec<SpannedToken>, a: usize, b: usize) -> (r: String)
    requires
        a <= b <= t.len(),
    ensures
        r@ == trimmed(concat_text(tokens_view(t@), a as int, b as int)),
{
    let s = concat_tokens(t, a, b);
    let cs = chars_of(s.as_str());
    trim(&cs)
}

fn class_member(x: &Token, class: u8) -> (r: bool)
    ensures
        r == in_class(x@, class),
{
    match x {
        Token::Text(_) | Token::WS(_) => true,
        Token::Alias | Token::To => class != NAME_PART,
        Token::Comma | Token::Colon => class != NAME_PART && class != TAG_PART,
        Token::Eq | Token::LBracket | Token::RBracket => class != NAME_PART && class != TAG_PART && class != CLOZE_PART,
        _ => false,
    }
}

fn run_end_exec(t: &Vec<SpannedToken>, k: usize, c: usize, class: u8) -> (r: usize)
    requires
        k <= c <= t.len(),
    ensures
        r as int == run_end(tokens_view(t@), k as int, c as int, class),
        k <= r <= c,
{
    let ghost tv = tokens_view(t@);
    let mut e = k;
    while e < c && class_member(&t[e].token, class)
        invariant
            k <= e <= c <= t.len(),
            tv == tokens_view(t@),
            run_end(tv, e as int, c as int, class) == run_end(tv, k as int, c as int, class),
        decreases c - e,
    {
        e = e + 1;
    }
    e
}

fn skip_ws_exec(t: &Vec<SpannedToken>, k: usize, c: usize) -> (r: usize)
    requires
        k <= c <= t.len(),
    ensures
        r as int == skip_ws(tokens_view(t@), k as int, c as int),
        k <= r <= c,
{
    let ghost tv = tokens_view(t@);
    let mut e = k;
    while e < c && is_ws(&t[e].token)
        invariant
            k <= e <= c <= t.len(),
            tv == tokens_view(t@),
            skip_ws(tv, e as int, c as int) == skip_ws(tv, k as int, c as int),
        decreases c - e,
    {
        e = e + 1;
    }
    e
}

fn is_ws(x: &Token) -> (r: bool)
    ensures
        r == x@ is WS,
{
    match x {
        Token::WS(_) => true,
        _ => false,
    }
}

fn tags_exec(t: &Vec<SpannedToken>, k: usize, c: usize) -> (r: Option<(Vec<String>, usize)>)
    requires
        k <= c <= t.len(),
    ensures
        match r {
            Some((v, end)) => tags_from(tokens_view(t@), k as int, c as int) == Some((strings_view(v@), end as int)),
            None => tags_from(tokens_view(t@), k as int, c as int) is None,
        },
    decreases c - k,
{
    let ghost tv = tokens_view(t@);
    if k >= c {
        return None;
    }
    if matches!(t[k].token, Token::RBracket) {
        let v: Vec<String> = Vec::new();
        assert(strings_view(v@) =~= Seq::empty());
        return Some((v, k + 1));
    }
    if !class_member(&t[k].token, TAG_PART) {
        return None;
    }
    let e = run_end_exec(t, k, c, TAG_PART);
    let tag = trimmed_text(t, k, e);
    if e <= k || e >= c {
        return None;
    }
    if matches!(t[e].token, Token::RBracket) {
        let mut v: Vec<String> = Vec::new();
        v.push(tag);
        assert(strings_view(v@) =~= seq![tag@]);
        return Some((v, e + 1));
    }
    if matches!(t[e].token, Token::Comma) {
        match tags_exec(t, e + 1, c) {
            Some((rest, end)) => {
                let ghost rv = strings_view(rest@);
                let mut v = rest;
                v.insert(0, tag);
                assert(strings_view(v@) =~= seq![tag@] + rv);
                return Some((v, end));
            },
            None => {
                return None;
            },
        }
    }
    None
}

fn cloze_exec(t: &Vec<SpannedToken>, k: usize, c: usize) -> (r: Option<(TextElement, usize)>)
    requires
        k < c <= t.len(),
    ensures
        match r {
            Some((e, next)) => cloze_at(tokens_view(t@), k as int, c as int) == Some((e@, next as int)),
            None => cloze_at(tokens_view(t@), k as int, c as int) is None,
        },
{
    let a = run_end_exec(t, k + 1, c, CLOZE_PART);
    if a <= k + 1 || a >= c {
        return None;
    }
    if matches!(t[a].token, Token::Pipe) {
        let h = run_end_exec(t, a + 1, c, CLOZE_PART);
        if h <= a + 1 || h >= c || !matches!(t[h].token, Token::RBrace) {
            return None;
        }
        let answer = trimmed_text(t, k + 1, a);
        let hint = trimmed_text(t, a + 1, h);
        return Some((TextElement::Cloze(Cloze { id: 0, answer, hint: Some(hint) }), h + 1));
    }
    if matches!(t[a].token, Token::RBrace) {
        let answer = trimmed_text(t, k + 1, a);
        return Some((TextElement::Cloze(Cloze { id: 0, answer, hint: None }), a + 1));
    }
    None
}

fn content_exec(t: &Vec<SpannedToken>, k: usize, c: usize) -> (r: Option<Vec<TextElement>>)
    requires
        k <= c <= t.len(),
    ensures
        match r {
            Some(v) => content_from(tokens_view(t@), k as int, c as int) == Some(content_view(v@)),
            None => content_from(tokens_view(t@), k as int, c as int) is None,
        },
    decreases c - k,
{
    if k >= c {
        let v: Vec<TextElement> = Vec::new();
        assert(content_view(v@) =~= Seq::empty());
        return Some(v);
    }
    if matches!(t[k].token, Token::LBrace) {
        match cloze_exec(t, k, c) {
            Some((e, next)) => {
                if next <= k || next > c {
                    return None;
                }
                match content_exec(t, next, c) {
                    Some(rest) => {
                        let ghost rv = content_view(rest@);
                        let ghost ev = e@;
                        let mut v = rest;
                        v.insert(0, e);
                        assert(content_view(v@) =~= seq![ev] + rv);
                        return Some(v);
                    },
                    None => {
                        return None;
                    },
                }
            },
            None => {
                return None;
            },
        }
    }
    if class_member(&t[k].token, TEXT_PART) {
        let e = run_end_exec(t, k, c, TEXT_PART);
        if e <= k {
            return None;
        }
        let s = concat_tokens(t, k, e);
        match content_exec(t, e, c) {
            Some(rest) => {
                let ghost rv = content_view(rest@);
                let ghost sv = s@;
                let mut v = rest;
                v.insert(0, TextElement::Text(s));
                assert(content_view(v@) =~= seq![TextElementView::Text(sv)] + rv);
                return Some(v);
            },
            None => {
                return None;
            },
        }
    }
    None
}

fn model_exec(t: &Vec<SpannedToken>, k: usize, c: usize) -> (r: Option<FlashItem>)
    requires
        k < c <= t.len(),
    ensures
        opt_item_view(r) == model_item(tokens_view(t@), k as int, c as int),
{
    let m = run_end_exec(t, k + 1, c, NAME_PART);
    if m < c && matches!(t[m].token, Token::Eq) && skip_ws_exec(t, m + 1, c) == c {
        Some(FlashItem::NoteModel(trimmed_text(t, k + 1, m)))
    } else {
        None
    }
}

fn alias_exec(t: &Vec<SpannedToken>, k: usize, c: usize) -> (r: Option<FlashItem>)
    requires
        k < c <= t.len(),
    ensures
        opt_item_view(r) == alias_item(tokens_view(t@), k as int, c as int),
{
    if !(k + 1 < c && is_ws(&t[k + 1].token)) {
        return None;
    }
    let a = skip_ws_exec(t, k + 1, c);
    if a >= c {
        return None;
    }
    let from = match &t[a].token {
        Token::Text(s) => s.clone(),
        _ => {
            return None;
        },
    };
    let b = skip_ws_exec(t, a + 1, c);
    if !(b < c && matches!(t[b].token, Token::To)) {
        return None;
    }
    let d = skip_ws_exec(t, b + 1, c);
    if d >= c {
        return None;
    }
    let to = match &t[d].token {
        Token::Text(s) => s.clone(),
        _ => {
            return None;
        },
    };
    if skip_ws_exec(t, d + 1, c) != c {
        return None;
    }
    Some(FlashItem::Alias { from, to })
}

fn tags_item_exec(t: &Vec<SpannedToken>, k: usize, c: usize) -> (r: Option<FlashItem>)
    requires
        k < c <= t.len(),
    ensures
        opt_item_view(r) == tags_item(tokens_view(t@), k as int, c as int),
{
    match tags_exec(t, k + 1, c) {
        Some((ts, end)) => {
            if end <= c && skip_ws_exec(t, end, c) == c {
                Some(FlashItem::Tags(ts))
            } else {
                proof {
                    lemma_tags_end(tokens_view(t@), k + 1, c as int);
                }
                None
            }
        },
        None => None,
    }
}

proof fn lemma_tags_end(t: Seq<SpannedView>, k: int, c: int)
    ensures
        tags_from(t, k, c) matches Some((ts, end)) ==> end <= c,
    decreases c - k,
{
    if 0 <= k < c && c <= t.len() && !(t[k].token is RBracket) && in_class(t[k].token, TAG_PART) {
        let e = run_end(t, k, c, TAG_PART);
        if e > k && e < c && t[e].token is Comma {
            lemma_tags_end(t, e + 1, c);
        }
    }
}

fn field_exec(t: &Vec<SpannedToken>, k: usize, c: usize) -> (r: Option<FlashItem>)
    requires
        k + 1 < c <= t.len(),
    ensures
        opt_item_view(r) == field_item(tokens_view(t@), k as int, c as int),
{
    let p = skip_ws_exec(t, k + 2, c);
    match content_exec(t, p, c) {
        Some(content) => Some(FlashItem::Field { name: token_text(&t[k].token), content }),
        None => None,
    }
}

/// Reads the line of tokens `i..j` as one item; `None` for a malformed line.
pub fn read_line(t: &Vec<SpannedToken>, i: usize, j: usize) -> (r: Option<FlashItem>)
    requires
        i <= j <= t.len(),
    ensures
        opt_item_view(r) == line_item(tokens_view(t@), i as int, j as int),
{
    let c = if j > i && matches!(t[j - 1].token, Token::Comment(_)) { j - 1 } else { j };
    let k = skip_ws_exec(t, i, c);
    if k >= c {
        if c < j {
            return Some(FlashItem::Comment(token_text(&t[c].token)));
        } else {
            return Some(FlashItem::BlankLine);
        }
    }
    let name_like = matches!(t[k].token, Token::Text(_) | Token::Alias | Token::To);
    if name_like && k + 1 < c && matches!(t[k + 1].token, Token::Colon) {
        return field_exec(t, k, c);
    }
    match &t[k].token {
        Token::Alias => alias_exec(t, k, c),
        Token::Eq => model_exec(t, k, c),
        Token::LBracket => tags_item_exec(t, k, c),
        _ => None,
    }
}

/// State of the builder that folds items into notes.
pub struct BuildView {
    pub model: Option<int>,
    /// Pairs `(written label, canonical field name)`; a later pair overrides an earlier one.
    pub aliases: Seq<(Seq<char>, Seq<char>)>,
    pub tags: Seq<Seq<char>>,
    pub fields: Seq<NoteFieldView>,
    pub notes: Seq<NoteView>,
    pub diags: Seq<DiagnosticView>,
}

pub open spec fn initial_build() -> BuildView {
    BuildView {
        model: None,
        aliases: Seq::empty(),
        tags: Seq::empty(),
        fields: Seq::empty(),
        notes: Seq::empty(),
        diags: Seq::empty(),
    }
}

/// Position of the first model named `name` from `k` on, or `ms.len()`.
pub open spec fn model_index(ms: Seq<ModelView>, name: Seq<char>, k: int) -> int
    decreases ms.len() - k,
{
    if k < 0 || k >= ms.len() {
        ms.len() as int
    } else if ms[k].name == name {
        k
    } else {
        model_index(ms, name, k + 1)
    }
}

pub open spec fn model_names(ms: Seq<ModelView>) -> Seq<Seq<char>> {
    ms.map_values(|m: ModelView| m.name)
}

/// The canonical name that a written field label resolves to.
pub open spec fn alias_lookup(al: Seq<(Seq<char>, Seq<char>)>, name: Seq<char>) -> Seq<char>
    decreases al.len(),
{
    if al.len() == 0 {
        name
    } else if al.last().0 == name {
        al.last().1
    } else {
        alias_lookup(al.drop_last(), name)
    }
}

pub open spec fn has_field_named(fields: Seq<NoteFieldView>, name: Seq<char>) -> bool {
    exists|k: int| 0 <= k < fields.len() && (#[trigger] fields[k]).name == name
}

pub open spec fn with_diag(st: BuildView, kind: DiagnosticKindView, span: (int, int)) -> BuildView {
    BuildView { diags: st.diags.push(DiagnosticView { kind, start: span.0, end: span.1 }), ..st }
}

/// Ends the pending note: emits it if it has fields, then clears fields and tags.
pub open spec fn finalize(st: BuildView, ms: Seq<ModelView>) -> BuildView {
    let cleared = BuildView { tags: Seq::empty(), fields: Seq::empty(), ..st };
    match st.model {
        Some(m) => if st.fields.len() > 0 {
            BuildView {
                notes: st.notes.push(NoteView { model: ms[m].name, tags: st.tags, fields: st.fields }),
                ..cleared
            }
        } else {
            cleared
        },
        None => cleared,
    }
}

/// The builder's state after one line.
pub open spec fn step(st: BuildView, item: Option<ItemView>, span: (int, int), ms: Seq<ModelView>) -> BuildView {
    match item {
        None => with_diag(st, DiagnosticKindView::Syntax, span),
        Some(ItemView::NoteModel(name)) => {
            let f = finalize(st, ms);
            let idx = model_index(ms, name, 0);
            if idx < ms.len() {
                BuildView { model: Some(idx), aliases: Seq::empty(), ..f }
            } else {
                with_diag(
                    BuildView { model: None, aliases: Seq::empty(), ..f },
                    DiagnosticKindView::UnknownModel { name, available: model_names(ms) },
                    span,
                )
            }
        },
        Some(ItemView::Alias { from, to }) => match st.model {
            None => with_diag(st, DiagnosticKindView::ModelNotSpecified, span),
            Some(m) => if ms[m].fields.contains(from) {
                BuildView { aliases: st.aliases.push((to, from)), ..st }
            } else {
                with_diag(st, DiagnosticKindView::InvalidAliasTarget { model: ms[m].name, target: from }, span)
            },
        },
        Some(ItemView::Tags(ts)) => BuildView { tags: ts, ..st },
        Some(ItemView::Field { name, content }) => match st.model {
            None => with_diag(st, DiagnosticKindView::ModelNotSpecified, span),
            Some(m) => {
                let r = alias_lookup(st.aliases, name);
                if !ms[m].fields.contains(r) {
                    with_diag(
                        st,
                        DiagnosticKindView::UnknownField { model: ms[m].name, field: name, available: ms[m].fields },
                        span,
                    )
                } else if has_field_named(st.fields, r) {
                    with_diag(st, DiagnosticKindView::DuplicateField { field: r }, span)
                } else {
                    BuildView { fields: st.fields.push(NoteFieldView { name: r, content }), ..st }
                }
            },
        },
        Some(ItemView::Comment(_)) => st,
        Some(ItemView::BlankLine) => finalize(st, ms),
    }
}

/// Position of the first newline token from `i` on, or the end.
pub open spec fn newline_from(t: Seq<SpannedView>, i: int) -> int
    decreases t.len() - i,
{
    if i < 0 || i >= t.len() || t[i].token is Newline { i } else { newline_from(t, i + 1) }
}

/// Characters covered by the tokens `i..j`.
pub open spec fn line_span(t: Seq<SpannedView>, i: int, j: int) -> (int, int) {
    if i < j { (t[i].start, t[j - 1].end) } else { (0, 0) }
}

/// Folds the lines from the one that starts at token `i`.
pub open spec fn parse_lines(t: Seq<SpannedView>, i: int, st: BuildView, ms: Seq<ModelView>) -> BuildView
    decreases t.len() - i,
{
    if i < 0 || i >= t.len() {
        finalize(st, ms)
    } else {
        let j = newline_from(t, i);
        let next = step(st, line_item(t, i, j), line_span(t, i, j), ms);
        if j < i || j >= t.len() { finalize(next, ms) } else { parse_lines(t, j + 1, next, ms) }
    }
}

/// The notes and diagnostics that a source text gives against a list of models.
pub open spec fn parse_result(s: Seq<char>, ms: Seq<ModelView>) -> (Seq<NoteView>, Seq<DiagnosticView>) {
    let st = parse_lines(lex(s), 0, initial_build(), ms);
    (st.notes, st.diags)
}

/// The builder that folds items into notes.
pub struct Builder {
    pub model: Option<usize>,
    pub aliases: Vec<(String, String)>,
    pub tags: Vec<String>,
    pub fields: Vec<NoteField>,
    pub notes: Vec<Note>,
    pub diagnostics: Vec<Diagnostic>,
}

pub open spec fn aliases_view(v: Seq<(String, String)>) -> Seq<(Seq<char>, Seq<char>)> {
    v.map_values(|p: (String, String)| (p.0@, p.1@))
}

impl View for Builder {
    type V = BuildView;

    open spec fn view(&self) -> BuildView {
        BuildView {
            model: match self.model {
                Some(m) => Some(m as int),
                None => None,
            },
            aliases: aliases_view(self.aliases@),
            tags: strings_view(self.tags@),
            fields: fields_view(self.fields@),
            notes: notes_view(self.notes@),
            diags: diagnostics_view(self.diagnostics@),
        }
    }
}

pub(crate) fn find_model_index(models: &[NoteModel], name: &String) -> (r: usize)
    ensures
        r as int == model_index(models_view(models@), name@, 0),
        r <= models@.len(),
{
    let ghost ms = models_view(models@);
    let mut k: usize = 0;
    while k < models.len()
        invariant
            k <= models@.len(),
            ms == models_view(models@),
            model_index(ms, name@, k as int) == model_index(ms, name@, 0),
        decreases models.len() - k,
    {
        if models[k].name == *name {
            return k;
        }
        k = k + 1;
    }
    k
}

fn model_name_list(models: &[NoteModel]) -> (r: Vec<String>)
    ensures
        strings_view(r@) == model_names(models_view(models@)),
{
    let mut r: Vec<String> = Vec::new();
    let mut k: usize = 0;
    while k < models.len()
        invariant
            k <= models@.len(),
            r@.len() == k,
            forall|q: int| 0 <= q < k ==> r@[q]@ == models@[q].name@,
        decreases models.len() - k,
    {
        r.push(models[k].name.clone());
        k = k + 1;
    }
    assert(strings_view(r@) =~= model_names(models_view(models@)));
    r
}

fn field_name_list(m: &NoteModel) -> (r: Vec<String>)
    ensures
        strings_view(r@) == m@.fields,
{
    let mut r: Vec<String> = Vec::new();
    let mut k: usize = 0;
    while k < m.fields.len()
        invariant
            k <= m.fields@.len(),
            r@.len() == k,
            forall|q: int| 0 <= q < k ==> r@[q]@ == m.fields@[q].name@,
        decreases m.fields.len() - k,
    {
        r.push(m.fields[k].name.clone());
        k = k + 1;
    }
    assert(strings_view(r@) =~= m@.fields);
    r
}

fn has_field(m: &NoteModel, name: &String) -> (r: bool)
    ensures
        r == m@.fields.contains(name@),
{
    let mut k: usize = 0;
    while k < m.fields.len()
        invariant
            k <= m.fields@.len(),
            forall|q: int| 0 <= q < k ==> m@.fields[q] != name@,
        decreases m.fields.len() - k,
    {
        if m.fields[k].name == *name {
            assert(m@.fields[k as int] == name@);
            return true;
        }
        k = k + 1;
    }
    false
}

fn lookup_alias(al: &Vec<(String, String)>, name: &String) -> (r: String)
    ensures
        r@ == alias_lookup(aliases_view(al@), name@),
{
    let ghost av = aliases_view(al@);
    let mut k: usize = al.len();
    assert(av.take(al@.len() as int) =~= av);
    while k > 0
        invariant
            k <= al@.len(),
            av == aliases_view(al@),
            alias_lookup(av.take(k as int), name@) == alias_lookup(av, name@),
        decreases k,
    {
        assert(av.take(k as int).drop_last() =~= av.take(k - 1));
        if al[k - 1].0 == *name {
            return al[k - 1].1.clone();
        }
        k = k - 1;
    }
    assert(av.take(0) =~= Seq::<(Seq<char>, Seq<char>)>::empty());
    name.clone()
}

fn fields_have(fields: &Vec<NoteField>, name: &String) -> (r: bool)
    ensures
        r == has_field_named(fields_view(fields@), name@),
{
    let ghost fv = fields_view(fields@);
    let mut k: usize = 0;
    while k < fields.len()
        invariant
            k <= fields@.len(),
            fv == fields_view(fields@),
            forall|q: int| 0 <= q < k ==> fv[q].name != name@,
        decreases fields.len() - k,
    {
        if fields[k].name == *name {
            assert(fv[k as int].name == name@);
            return true;
        }
        k = k + 1;
    }
    false
}

impl Builder {
    pub open spec fn wf(&self, n: int) -> bool {
        self.model matches Some(m) ==> m < n
    }

    fn diagnose(&mut self, kind: DiagnosticKind, start: usize, end: usize)
        ensures
            final(self)@ == with_diag(old(self)@, kind@, (start as int, end as int)),
            final(self).model == old(self).model,
    {
        let ghost before = self@;
        let d = Diagnostic { kind, start, end };
        self.diagnostics.push(d);
        assert(self@.diags =~= before.diags.push(d@));
        assert(self@ =~= with_diag(before, kind@, (start as int, end as int)));
    }

    fn finalize(&mut self, models: &[NoteModel])
        requires
            old(self).wf(models@.len() as int),
        ensures
            final(self)@ == finalize(old(self)@, models_view(models@)),
            final(self).model == old(self).model,
            final(self).wf(models@.len() as int),
    {
        let ghost before = self@;
        let ghost ms = models_view(models@);
        match self.model {
            Some(m) => {
                if self.fields.len() > 0 {
                    let fields = clone_fields(&self.fields);
                    let tags = clone_strings(&self.tags);
                    self.fields = Vec::new();
                    self.tags = Vec::new();
                    let note = Note { model: models[m].name.clone(), tags, fields };
                    assert(note@ == NoteView { model: ms[m as int].name, tags: before.tags, fields: before.fields });
                    self.notes.push(note);
                    assert(self@.notes =~= before.notes.push(note@));
                } else {
                    self.tags = Vec::new();
                }
            },
            None => {
                self.tags = Vec::new();
                self.fields = Vec::new();
            },
        }
        assert(self@.tags =~= Seq::<Seq<char>>::empty());
        assert(self@.fields =~= Seq::<NoteFieldView>::empty());
        assert(self@ =~= finalize(before, ms));
    }

    fn step(&mut self, item: Option<FlashItem>, start: usize, end: usize, models: &[NoteModel])
        requires
            old(self).wf(models@.len() as int),
        ensures
            final(self)@ == step(old(self)@, opt_item_view(item), (start as int, end as int), models_view(models@)),
            final(self).wf(models@.len() as int),
    {
        let ghost before = self@;
        let ghost ms = models_view(models@);
        let ghost iv = opt_item_view(item);
        match item {
            None => self.diagnose(DiagnosticKind::Syntax, start, end),
            Some(FlashItem::NoteModel(name)) => {
                self.finalize(models);
                let ghost f = self@;
                let idx = find_model_index(models, &name);
                self.aliases = Vec::new();
                assert(aliases_view(self.aliases@) =~= Seq::<(Seq<char>, Seq<char>)>::empty());
                if idx < models.len() {
                    self.model = Some(idx);
                    assert(self@ =~= BuildView { model: Some(idx as int), aliases: Seq::empty(), ..f });
                } else {
                    self.model = None;
                    let available = model_name_list(models);
                    self.diagnose(DiagnosticKind::UnknownModel { name, available }, start, end);
                }
            },
            Some(FlashItem::Alias { from, to }) => match self.model {
                None => self.diagnose(DiagnosticKind::ModelNotSpecified, start, end),
                Some(m) => {
                    if has_field(&models[m], &from) {
                        let ghost pair = (to@, from@);
                        self.aliases.push((to, from));
                        assert(self@.aliases =~= before.aliases.push(pair));
                        assert(self@ =~= BuildView { aliases: before.aliases.push(pair), ..before });
                    } else {
                        let model = models[m].name.clone();
                        self.diagnose(DiagnosticKind::InvalidAliasTarget { model, target: from }, start, end);
                    }
                },
            },
            Some(FlashItem::Tags(ts)) => {
                self.tags = ts;
            },
            Some(FlashItem::Field { name, content }) => match self.model {
                None => self.diagnose(DiagnosticKind::ModelNotSpecified, start, end),
                Some(m) => {
                    let r = lookup_alias(&self.aliases, &name);
                    if !has_field(&models[m], &r) {
                        let model = models[m].name.clone();
                        let available = field_name_list(&models[m]);
                        self.diagnose(DiagnosticKind::UnknownField { model, field: name, available }, start, end);
                    } else if fields_have(&self.fields, &r) {
                        self.diagnose(DiagnosticKind::DuplicateField { field: r }, start, end);
                    } else {
                        let f = NoteField { name: r, content };
                        let ghost fv = f@;
                        self.fields.push(f);
                        assert(self@.fields =~= before.fields.push(fv));
                        assert(self@ =~= BuildView { fields: before.fields.push(fv), ..before });
                    }
                },
            },
            Some(FlashItem::Comment(_)) => {},
            Some(FlashItem::BlankLine) => self.finalize(models),
        }
    }
}

fn newline_exec(t: &Vec<SpannedToken>, i: usize) -> (r: usize)
    requires
        i <= t.len(),
    ensures
        r as int == newline_from(tokens_view(t@), i as int),
        i <= r <= t.len(),
{
    let ghost tv = tokens_view(t@);
    let mut j = i;
    while j < t.len() && !matches!(t[j].token, Token::Newline)
        invariant
            i <= j <= t.len(),
            tv == tokens_view(t@),
            newline_from(tv, j as int) == newline_from(tv, i as int),
        decreases t.len() - j,
    {
        j = j + 1;
    }
    j
}

/// Parses a `.flash` source against the available note models: the notes it
/// holds, in order, and a diagnostic for each line that could not be used.
pub fn flash(models: &[NoteModel], content: &str) -> (r: (Vec<Note>, Vec<Diagnostic>))
    ensures
        (notes_view(r.0@), diagnostics_view(r.1@)) == parse_result(content@, models_view(models@)),
{
    let toks = lex_str(content);
    let ghost tv = tokens_view(toks@);
    let ghost ms = models_view(models@);
    let mut b = Builder {
        model: None,
        aliases: Vec::new(),
        tags: Vec::new(),
        fields: Vec::new(),
        notes: Vec::new(),
        diagnostics: Vec::new(),
    };
    assert(b@.aliases =~= initial_build().aliases);
    assert(b@.tags =~= initial_build().tags);
    assert(b@.fields =~= initial_build().fields);
    assert(b@.notes =~= initial_build().notes);
    assert(b@.diags =~= initial_build().diags);
    assert(b@ == initial_build());
    let mut i: usize = 0;
    let mut done = false;
    while !done && i < toks.len()
        invariant
            i <= toks.len(),
            tv == tokens_view(toks@),
            tv == lex(content@),
            ms == models_view(models@),
            b.wf(models@.len() as int),
            !done ==> parse_lines(tv, i as int, b@, ms) == parse_lines(tv, 0, initial_build(), ms),
            done ==> finalize(b@, ms) == parse_lines(tv, 0, initial_build(), ms),
        decreases toks.len() - i,
    {
        let j = newline_exec(&toks, i);
        let item = read_line(&toks, i, j);
        let (start, end) = if i < j { (toks[i].start, toks[j - 1].end) } else { (0, 0) };
        b.step(item, start, end, models);
        if j >= toks.len() {
            done = true;
            i = toks.len();
        } else {
            i = j + 1;
        }
    }
    b.finalize(models);
    (b.notes, b.diagnostics)
}

} // verus!

verus! {

/// Parsing is a function of the text and of the models: the same input gives
/// the same notes and the same diagnostics.
pub proof fn lemma_parse_deterministic(s1: Seq<char>, s2: Seq<char>, m1: Seq<ModelView>, m2: Seq<ModelView>)
    requires
        s1 == s2,
        m1 == m2,
    ensures
        parse_result(s1, m1) == parse_result(s2, m2),
{
}

} // verus!

verus! {

proof fn lemma_run_end(t: Seq<SpannedView>, k: int, c: int, class: u8)
    requires
        0 <= k <= c <= t.len(),
    ensures
        k <= run_end(t, k, c, class) <= c,
        run_end(t, k, c, class) < c ==> !in_class(t[run_end(t, k, c, class)].token, class),
    decreases c - k,
{
    if k < c && in_class(t[k].token, class) {
        lemma_run_end(t, k + 1, c, class);
    }
}

/// Field content as read never has two text elements in a row: each run of
/// text is taken whole.
pub proof fn lemma_content_coalesced(t: Seq<SpannedView>, k: int, c: int)
    requires
        0 <= k <= c <= t.len(),
    ensures
        content_from(t, k, c) matches Some(v) ==> text_coalesced(v),
    decreases c - k,
{
    if k < c {
        if t[k].token is LBrace {
            if let Some((e, next)) = cloze_at(t, k, c) {
                if next > k && next <= c {
                    lemma_content_coalesced(t, next, c);
                    if let Some(rest) = content_from(t, next, c) {
                        let v = seq![e] + rest;
                        assert forall|i: int| 0 <= i < v.len() - 1 implies !(#[trigger] v[i] is Text && v[i + 1] is Text) by {
                            if i > 0 {
                                assert(v[i] == rest[i - 1] && v[i + 1] == rest[i]);
                            }
                        }
                    }
                }
            }
        } else if in_class(t[k].token, TEXT_PART) {
            let e = run_end(t, k, c, TEXT_PART);
            lemma_run_end(t, k, c, TEXT_PART);
            if e > k {
                lemma_content_coalesced(t, e, c);
                if let Some(rest) = content_from(t, e, c) {
                    if rest.len() > 0 {
                        assert(e < c);
                        assert(!in_class(t[e].token, TEXT_PART));
                        assert(rest[0] is Cloze);
                    }
                    let v = seq![TextElementView::Text(concat_text(t, k, e))] + rest;
                    assert forall|i: int| 0 <= i < v.len() - 1 implies !(#[trigger] v[i] is Text && v[i + 1] is Text) by {
                        if i > 0 {
                            assert(v[i] == rest[i - 1] && v[i + 1] == rest[i]);
                        } else {
                            assert(v[1] == rest[0]);
                        }
                    }
                }
            }
        }
    }
}

/// Every field of a builder state, pending or emitted, has coalesced content.
pub open spec fn build_coalesced(st: BuildView) -> bool {
    &&& forall|k: int| 0 <= k < st.fields.len() ==> text_coalesced(#[trigger] st.fields[k].content)
    &&& forall|n: int, k: int|
        0 <= n < st.notes.len() && 0 <= k < st.notes[n].fields.len()
            ==> text_coalesced(#[trigger] st.notes[n].fields[k].content)
}

proof fn lemma_line_item_coalesced(t: Seq<SpannedView>, i: int, j: int)
    requires
        0 <= i <= j <= t.len(),
    ensures
        line_item(t, i, j) matches Some(ItemView::Field { name, content }) ==> text_coalesced(content),
{
    let c = code_end(t, i, j);
    let k = skip_ws(t, i, c);
    lemma_skip_ws(t, i, c);
    if k < c && is_name_token(t[k].token) && k + 1 < c && t[k + 1].token is Colon {
        lemma_skip_ws(t, k + 2, c);
        lemma_content_coalesced(t, skip_ws(t, k + 2, c), c);
    }
}

proof fn lemma_skip_ws(t: Seq<SpannedView>, k: int, c: int)
    requires
        0 <= k <= c <= t.len(),
    ensures
        k <= skip_ws(t, k, c) <= c,
    decreases c - k,
{
    if k < c && t[k].token is WS {
        lemma_skip_ws(t, k + 1, c);
    }
}

proof fn lemma_step_coalesced(st: BuildView, item: Option<ItemView>, span: (int, int), ms: Seq<ModelView>)
    requires
        build_coalesced(st),
        item matches Some(ItemView::Field { name, content }) ==> text_coalesced(content),
    ensures
        build_coalesced(finalize(st, ms)),
        build_coalesced(step(st, item, span, ms)),
{
    let f = finalize(st, ms);
    assert forall|n: int, k: int| 0 <= n < f.notes.len() && 0 <= k < f.notes[n].fields.len()
        implies text_coalesced(#[trigger] f.notes[n].fields[k].content) by {
        if n < st.notes.len() {
            assert(f.notes[n] == st.notes[n]);
        } else {
            assert(f.notes[n].fields == st.fields);
        }
    }
    let r = step(st, item, span, ms);
    if let Some(ItemView::Field { name, content }) = item {
        assert forall|k: int| 0 <= k < r.fields.len() implies text_coalesced(#[trigger] r.fields[k].content) by {
            if k < st.fields.len() {
                assert(r.fields[k] == st.fields[k]);
            }
        }
    }
}

proof fn lemma_parse_lines_coalesced(t: Seq<SpannedView>, i: int, st: BuildView, ms: Seq<ModelView>)
    requires
        build_coalesced(st),
        0 <= i,
    ensures
        build_coalesced(parse_lines(t, i, st, ms)),
    decreases t.len() - i,
{
    lemma_step_coalesced(st, None, (0, 0), ms);
    if i < t.len() {
        let j = newline_from(t, i);
        lemma_newline_from(t, i);
        lemma_line_item_coalesced(t, i, j);
        let next = step(st, line_item(t, i, j), line_span(t, i, j), ms);
        lemma_step_coalesced(st, line_item(t, i, j), line_span(t, i, j), ms);
        lemma_step_coalesced(next, None, (0, 0), ms);
        if j < t.len() {
            lemma_parse_lines_coalesced(t, j + 1, next, ms);
        }
    }
}

proof fn lemma_newline_from(t: Seq<SpannedView>, i: int)
    requires
        0 <= i <= t.len(),
    ensures
        i <= newline_from(t, i) <= t.len(),
    decreases t.len() - i,
{
    if i < t.len() && !(t[i].token is Newline) {
        lemma_newline_from(t, i + 1);
    }
}

/// In every note that parsing gives, no field's content has two text
/// elements in a row.
pub proof fn lemma_parsed_content_coalesced(s: Seq<char>, ms: Seq<ModelView>)
    ensures
        forall|n: int, k: int|
            0 <= n < parse_result(s, ms).0.len() && 0 <= k < parse_result(s, ms).0[n].fields.len()
                ==> text_coalesced(#[trigger] parse_result(s, ms).0[n].fields[k].content),
{
    assert(build_coalesced(initial_build()));
    lemma_parse_lines_coalesced(lex(s), 0, initial_build(), ms);
}

} // verus!
