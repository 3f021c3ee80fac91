//! What the deck export needs of the text model: clozes and fields as Anki
//! writes them, and the codes of its note-model kinds.
use vstd::prelude::*;
use crate::ident::{decimal, push_decimal};
use crate::note::{Cloze, ClozeView, TextElement, TextElementView, content_view};
use crate::text::push_str;

verus! {

/// The kind of an Anki note model.
#[derive(Debug, Clone, Copy, PartialEq, Eq, Structural)]
pub enum NoteModelType {
    Standard,
    Cloze,
}

impl NoteModelType {
    /// The integer Anki stores for the kind.
    pub fn code(&self) -> (r: i32)
        ensures
            r == (if *self == NoteModelType::Standard { 0i32 } else { 1i32 }),
    {
        match self {
            NoteModelType::Standard => 0,
            NoteModelType::Cloze => 1,
        }
    }

    /// The kind an integer stands for; no other integer names one.
    pub fn from_code(v: i32) -> (r: Option<NoteModelType>)
        ensures
            v == 0 ==> r == Some(NoteModelType::Standard),
            v == 1 ==> r == Some(NoteModelType::Cloze),
            v != 0 && v != 1 ==> r is None,
    {
        if v == 0 {
            Some(NoteModelType::Standard)
        } else if v == 1 {
            Some(NoteModelType::Cloze)
        } else {
            None
        }
    }
}

/// The kind of a deck configuration entry.
#[derive(Debug, Clone, Copy, PartialEq, Eq, Structural)]
pub enum ConfigType {
    DeckConfig,
}

/// Scheduling of new cards in a deck configuration.
#[derive(Debug)]
pub struct NewConfig {
    pub delays: Vec<i32>,
    pub ints: Vec<i32>,
    pub initial_factor: Option<i32>,
    pub per_day: Option<i32>,
    pub order: Option<i32>,
    pub bury: Option<bool>,
    pub separate: Option<bool>,
}

/// A cloze written as Anki expects it inside a field.
#[derive(Debug)]
pub struct ClozeString(pub String);

/// `{{c<id>::<answer>}}`, or `{{c<id>::<answer>::<hint>}}` with a hint.
pub open spec fn cloze_text(c: ClozeView) -> Seq<char> {
    let head = seq!['{', '{', 'c'] + decimal(c.id as int) + seq![':', ':'] + c.answer;
    match c.hint {
        Some(h) => head + seq![':', ':'] + h + seq!['}', '}'],
        None => head + seq!['}', '}'],
    }
}

impl ClozeString {
    /// The cloze in Anki's form.
    pub fn from(cloze: Cloze) -> (r: ClozeString)
        ensures
            r.0@ == cloze_text(cloze@),
    {
        ClozeString::of(&cloze)
    }

    pub fn of(cloze: &Cloze) -> (r: ClozeString)
        ensures
            r.0@ == cloze_text(cloze@),
    {
        proof {
            reveal_strlit("{{c");
            reveal_strlit("::");
            reveal_strlit("}}");
        }
        let mut s = String::new();
        push_str(&mut s, "{{c");
        push_decimal(&mut s, cloze.id as i64);
        push_str(&mut s, "::");
        push_str(&mut s, cloze.answer.as_str());
        match &cloze.hint {
            Some(h) => {
                push_str(&mut s, "::");
                push_str(&mut s, h.as_str());
            },
            None => {},
        }
        push_str(&mut s, "}}");
        assert(s@ =~= cloze_text(cloze@));
        ClozeString(s)
    }
}

/// A field's content as the export writes it: text as it is, clozes in
/// Anki's form.
pub open spec fn rendered(c: Seq<TextElementView>) -> Seq<char>
    decreases c.len(),
{
    if c.len() == 0 {
        Seq::empty()
    } else {
        rendered(c.drop_last()) + match c.last() {
            TextElementView::Text(s) => s,
            TextElementView::Cloze(z) => cloze_text(z),
        }
    }
}

pub fn render_field(content: &Vec<TextElement>) -> (r: String)
    ensures
        r@ == rendered(content_view(content@)),
{
    let ghost cv = content_view(content@);
    let mut s = String::new();
    let mut k: usize = 0;
    while k < content.len()
        invariant
            k <= content@.len(),
            cv == content_view(content@),
            s@ == rendered(cv.take(k as int)),
        decreases content.len() - k,
    {
        match &content[k] {
            TextElement::Text(t) => push_str(&mut s, t.as_str()),
            TextElement::Cloze(c) => {
                let z = ClozeString::of(c);
                push_str(&mut s, z.0.as_str());
            },
        }
        k = k + 1;
        proof {
            assert(cv.take(k as int).drop_last() =~= cv.take(k - 1));
        }
    }
    assert(cv.take(content@.len() as int) =~= cv);
    s
}

} // verus!
