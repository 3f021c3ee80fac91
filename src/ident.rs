//! Identifiers: name-based (version 5) UUIDs for deck hosts and notes.
use vstd::prelude::*;
use crate::note::{Note, NoteView, TextElementView, NoteFieldView};
use crate::text::{push_char, push_str};

verus! {

/// The version 5 UUID, as a 128-bit integer, that the uuid crate derives from a
/// namespace and the UTF-8 bytes of a name.
pub uninterp spec fn uuid_v5(namespace: u128, name: Seq<char>) -> u128;

/// Relies on `uuid::Uuid::new_v5`: a name-based identifier that depends on the
/// namespace and the name's bytes alone.
#[verifier::external_body]
fn new_v5(namespace: u128, name: &str) -> (r: u128)
    ensures
        r == uuid_v5(namespace, name@),
{
    uuid::Uuid::new_v5(&uuid::Uuid::from_u128(namespace), name.as_bytes()).as_u128()
}

/// The DNS namespace of RFC 4122, 6ba7b810-9dad-11d1-80b4-00c04fd430c8.
pub const NAMESPACE_DNS: u128 = 0x6ba7b8109dad11d180b400c04fd430c8;

pub open spec fn digit_char(d: int) -> char {
    if d == 0 { '0' } else if d == 1 { '1' } else if d == 2 { '2' } else if d == 3 { '3' }
    else if d == 4 { '4' } else if d == 5 { '5' } else if d == 6 { '6' } else if d == 7 { '7' }
    else if d == 8 { '8' } else { '9' }
}

/// Decimal digits of a natural number, most significant first.
pub open spec fn digits(n: nat) -> Seq<char>
    decreases n,
{
    if n < 10 {
        seq![digit_char(n as int)]
    } else {
        digits(n / 10) + seq![digit_char((n % 10) as int)]
    }
}

/// Decimal form of an integer, with a leading `-` when it is negative.
pub open spec fn decimal(n: int) -> Seq<char> {
    if n < 0 { seq!['-'] + digits((-n) as nat) } else { digits(n as nat) }
}

fn digit(d: u64) -> (c: char)
    requires
        d < 10,
    ensures
        c == digit_char(d as int),
{
    if d == 0 { '0' } else if d == 1 { '1' } else if d == 2 { '2' } else if d == 3 { '3' }
    else if d == 4 { '4' } else if d == 5 { '5' } else if d == 6 { '6' } else if d == 7 { '7' }
    else if d == 8 { '8' } else { '9' }
}

/// Appends the decimal digits of `n`.
fn push_digits(s: &mut String, n: u64)
    ensures
        final(s)@ == old(s)@ + digits(n as nat),
    decreases n,
{
    if n >= 10 {
        push_digits(s, n / 10);
    }
    push_char(s, digit(n % 10));
    assert(digits(n as nat) == if n < 10 { seq![digit_char(n as int)] } else { digits((n / 10) as nat) + seq![digit_char((n % 10) as int)] });
    assert(final(s)@ =~= old(s)@ + digits(n as nat));
}

/// Appends the decimal form of `n`.
pub fn push_decimal(s: &mut String, n: i64)
    ensures
        final(s)@ == old(s)@ + decimal(n as int),
{
    if n < 0 {
        push_char(s, '-');
        let m: u64 = if n == i64::MIN { 9223372036854775808u64 } else { (-n) as u64 };
        push_digits(s, m);
        assert(final(s)@ =~= old(s)@ + decimal(n as int));
    } else {
        push_digits(s, n as u64);
    }
}

/// The namespace of a deck: derived from the author of the first revision of
/// its entry file and that revision's commit time in seconds.
pub fn create_host_uuid(author: String, time: i64) -> (r: u128)
    ensures
        r == uuid_v5(NAMESPACE_DNS, author@ + decimal(time as int)),
{
    let mut name = author;
    push_decimal(&mut name, time);
    new_v5(NAMESPACE_DNS, name.as_str())
}

/// The identifier of a note's content within a host namespace.
pub fn generate_note_uuid(host_uuid: u128, content: &str) -> (r: u128)
    ensures
        r == uuid_v5(host_uuid, content@),
{
    new_v5(host_uuid, content)
}

/// What a content element contributes to a note's content string.
pub open spec fn projection(e: TextElementView) -> Seq<char> {
    match e {
        TextElementView::Text(s) => s,
        TextElementView::Cloze(c) => c.answer,
    }
}

/// The projections of a field's elements, separated by NUL characters.
pub open spec fn joined(c: Seq<TextElementView>) -> Seq<char>
    decreases c.len(),
{
    if c.len() == 0 {
        Seq::empty()
    } else if c.len() == 1 {
        projection(c[0])
    } else {
        joined(c.drop_last()) + seq!['\0'] + projection(c.last())
    }
}

/// For each field in order, its name followed by its joined content.
pub open spec fn fields_string(f: Seq<NoteFieldView>) -> Seq<char>
    decreases f.len(),
{
    if f.len() == 0 {
        Seq::empty()
    } else {
        fields_string(f.drop_last()) + f.last().name + joined(f.last().content)
    }
}

/// The text a note's identity is derived from: its field names and content,
/// without tags, cloze numbers or hints.
pub open spec fn content_string(n: NoteView) -> Seq<char> {
    fields_string(n.fields)
}

pub open spec fn note_uuid(host: u128, n: NoteView) -> u128 {
    uuid_v5(host, content_string(n))
}

impl Note {
    /// The note's content string.
    pub fn to_content_string(&self) -> (r: String)
        ensures
            r@ == content_string(self@),
    {
        let ghost fv = self@.fields;
        let mut s = String::new();
        let mut i: usize = 0;
        while i < self.fields.len()
            invariant
                i <= self.fields.len(),
                fv == self@.fields,
                s@ == fields_string(fv.take(i as int)),
            decreases self.fields.len() - i,
        {
            let field = &self.fields[i];
            push_str(&mut s, field.name.as_str());
            let mut k: usize = 0;
            let ghost base = s@;
            let ghost cv = fv[i as int].content;
            while k < field.content.len()
                invariant
                    k <= field.content.len(),
                    cv == fv[i as int].content,
                    field@ == fv[i as int],
                    s@ == base + joined(cv.take(k as int)),
                decreases field.content.len() - k,
            {
                if k > 0 {
                    push_char(&mut s, '\0');
                }
                match &field.content[k] {
                    crate::note::TextElement::Text(t) => push_str(&mut s, t.as_str()),
                    crate::note::TextElement::Cloze(c) => push_str(&mut s, c.answer.as_str()),
                }
                k = k + 1;
                proof {
                    let t = cv.take(k as int);
                    assert(t.drop_last() =~= cv.take(k - 1));
                    assert(t.last() == cv[k - 1]);
                    assert(s@ =~= base + joined(t));
                }
            }
            i = i + 1;
            proof {
                let t = fv.take(i as int);
                assert(t.drop_last() =~= fv.take(i - 1));
                assert(cv.take(cv.len() as int) =~= cv);
                assert(s@ =~= fields_string(t));
            }
        }
        assert(fv.take(fv.len() as int) =~= fv);
        s
    }

    /// The note's identifier within a host namespace.
    pub fn identifier(&self, host_uuid: u128) -> (r: u128)
        ensures
            r == note_uuid(host_uuid, self@),
    {
        let s = self.to_content_string();
        generate_note_uuid(host_uuid, s.as_str())
    }
}

} // verus!

verus! {

/// Two content elements that read the same: equal text, or clozes with the
/// same answer whatever their number and hint.
pub open spec fn same_text(x: TextElementView, y: TextElementView) -> bool {
    match x {
        TextElementView::Text(s) => y matches TextElementView::Text(t) && s == t,
        TextElementView::Cloze(c) => y matches TextElementView::Cloze(d) && c.answer == d.answer,
    }
}

pub open spec fn same_field_text(a: NoteFieldView, b: NoteFieldView) -> bool {
    a.name == b.name && a.content.len() == b.content.len()
        && forall|m: int| 0 <= m < a.content.len() ==> same_text(#[trigger] a.content[m], b.content[m])
}

/// `b` is `a` with other tags, cloze numbers or hints.
pub open spec fn differ_cosmetically(a: NoteView, b: NoteView) -> bool {
    a.model == b.model && a.fields.len() == b.fields.len()
        && forall|k: int| 0 <= k < a.fields.len() ==> same_field_text(#[trigger] a.fields[k], b.fields[k])
}

proof fn lemma_joined_same(c1: Seq<TextElementView>, c2: Seq<TextElementView>)
    requires
        c1.len() == c2.len(),
        forall|m: int| 0 <= m < c1.len() ==> same_text(#[trigger] c1[m], c2[m]),
    ensures
        joined(c1) == joined(c2),
    decreases c1.len(),
{
    if c1.len() > 0 {
        assert(same_text(c1[c1.len() - 1], c2[c2.len() - 1]));
        lemma_joined_same(c1.drop_last(), c2.drop_last());
    }
}

proof fn lemma_fields_string_same(f1: Seq<NoteFieldView>, f2: Seq<NoteFieldView>)
    requires
        f1.len() == f2.len(),
        forall|k: int| 0 <= k < f1.len() ==> same_field_text(#[trigger] f1[k], f2[k]),
    ensures
        fields_string(f1) == fields_string(f2),
    decreases f1.len(),
{
    if f1.len() > 0 {
        assert(same_field_text(f1[f1.len() - 1], f2[f2.len() - 1]));
        lemma_joined_same(f1.last().content, f2.last().content);
        lemma_fields_string_same(f1.drop_last(), f2.drop_last());
    }
}

/// A note's content string, and so its identifier, does not change when only
/// its tags, cloze numbers or cloze hints do.
pub proof fn lemma_identity_ignores_cosmetics(a: NoteView, b: NoteView, host: u128)
    requires
        differ_cosmetically(a, b),
    ensures
        content_string(a) == content_string(b),
        note_uuid(host, a) == note_uuid(host, b),
{
    lemma_fields_string_same(a.fields, b.fields);
}

} // verus!
