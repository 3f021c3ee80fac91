//! The text model: notes, their fields and content, and the note models
//! (schemas) they are checked against.
use vstd::prelude::*;

verus! {

/// The schema version of a note model, as semver gives it.
#[verifier::external_type_specification]
#[verifier::external_body]
pub struct ExVersion(semver::Version);

/// A field declared by a note model.
#[derive(Debug)]
pub struct Field {
    pub name: String,
    pub sticky: Option<bool>,
    pub associated_media: Option<Vec<String>>,
}

/// A card template of a note model.
#[derive(Debug)]
pub struct Template {
    pub name: String,
    pub order: i32,
    pub question_format: String,
    pub answer_format: String,
    pub browser_question_format: String,
    pub browser_answer_format: String,
}

/// Default presentation of a model's fields.
#[derive(Debug)]
pub struct Defaults {
    pub font: String,
    pub size: u32,
    pub rtl: bool,
}

/// A note model: the schema that notes are validated against.
#[derive(Debug)]
pub struct NoteModel {
    pub name: String,
    pub id: u128,
    pub templates: Vec<Template>,
    pub schema_version: semver::Version,
    pub defaults: Option<Defaults>,
    pub css: String,
    pub fields: Vec<Field>,
    pub latex_pre: Option<String>,
    pub latex_post: Option<String>,
    pub sort_field: Option<String>,
    pub tags: Option<Vec<String>>,
    /// Boolean expression, over field names, that says which fields a note needs.
    pub required: String,
}

/// What the parser reads of a model: its name and its field names, in order.
pub struct ModelView {
    pub name: Seq<char>,
    pub fields: Seq<Seq<char>>,
}

pub open spec fn strings_view(v: Seq<String>) -> Seq<Seq<char>> {
    v.map_values(|s: String| s@)
}

pub open spec fn opt_string_view(o: Option<String>) -> Option<Seq<char>> {
    match o {
        Some(s) => Some(s@),
        None => None,
    }
}

pub open spec fn field_names(fields: Seq<Field>) -> Seq<Seq<char>> {
    fields.map_values(|f: Field| f.name@)
}

impl View for NoteModel {
    type V = ModelView;

    open spec fn view(&self) -> ModelView {
        ModelView { name: self.name@, fields: field_names(self.fields@) }
    }
}

pub open spec fn models_view(models: Seq<NoteModel>) -> Seq<ModelView> {
    models.map_values(|m: NoteModel| m@)
}

/// A hidden span inside a field's content.
#[derive(Debug)]
pub struct Cloze {
    pub id: u32,
    pub answer: String,
    pub hint: Option<String>,
}

/// One piece of a field's content.
#[derive(Debug)]
pub enum TextElement {
    Text(String),
    Cloze(Cloze),
}

/// A named field of a note with its content.
#[derive(Debug)]
pub struct NoteField {
    pub name: String,
    pub content: Vec<TextElement>,
}

/// One flashcard. `model` is the name of its note model, which identifies the
/// model among those of a deck.
#[derive(Debug)]
pub struct Note {
    pub model: String,
    pub tags: Vec<String>,
    pub fields: Vec<NoteField>,
}

/// A value carrying a 128-bit identifier.
#[derive(Debug)]
pub struct Identified<T> {
    pub id: u128,
    pub inner: T,
}

pub struct ClozeView {
    pub id: u32,
    pub answer: Seq<char>,
    pub hint: Option<Seq<char>>,
}

pub enum TextElementView {
    Text(Seq<char>),
    Cloze(ClozeView),
}

pub struct NoteFieldView {
    pub name: Seq<char>,
    pub content: Seq<TextElementView>,
}

pub struct NoteView {
    pub model: Seq<char>,
    pub tags: Seq<Seq<char>>,
    pub fields: Seq<NoteFieldView>,
}

impl View for Cloze {
    type V = ClozeView;

    open spec fn view(&self) -> ClozeView {
        ClozeView { id: self.id, answer: self.answer@, hint: opt_string_view(self.hint) }
    }
}

impl View for TextElement {
    type V = TextElementView;

    open spec fn view(&self) -> TextElementView {
        match self {
            TextElement::Text(s) => TextElementView::Text(s@),
            TextElement::Cloze(c) => TextElementView::Cloze(c@),
        }
    }
}

pub open spec fn content_view(c: Seq<TextElement>) -> Seq<TextElementView> {
    c.map_values(|e: TextElement| e@)
}

impl View for NoteField {
    type V = NoteFieldView;

    open spec fn view(&self) -> NoteFieldView {
        NoteFieldView { name: self.name@, content: content_view(self.content@) }
    }
}

pub open spec fn fields_view(f: Seq<NoteField>) -> Seq<NoteFieldView> {
    f.map_values(|x: NoteField| x@)
}

impl View for Note {
    type V = NoteView;

    open spec fn view(&self) -> NoteView {
        NoteView {
            model: self.model@,
            tags: strings_view(self.tags@),
            fields: fields_view(self.fields@),
        }
    }
}

pub open spec fn notes_view(n: Seq<Note>) -> Seq<NoteView> {
    n.map_values(|x: Note| x@)
}

/// An identified note as a pair of its identifier and the note's view.
pub open spec fn identified_view(v: Seq<Identified<Note>>) -> Seq<(u128, NoteView)> {
    v.map_values(|x: Identified<Note>| (x.id, x.inner@))
}

/// No two consecutive elements of a content sequence are both text.
pub open spec fn text_coalesced(c: Seq<TextElementView>) -> bool {
    forall|i: int| 0 <= i < c.len() - 1 ==> !(#[trigger] c[i] is Text && c[i + 1] is Text)
}

pub fn eq_opt_string(a: &Option<String>, b: &Option<String>) -> (r: bool)
    ensures
        r == (opt_string_view(*a) == opt_string_view(*b)),
{
    match a {
        Some(x) => match b {
            Some(y) => *x == *y,
            None => false,
        },
        None => b.is_none(),
    }
}

pub fn eq_strings(a: &Vec<String>, b: &Vec<String>) -> (r: bool)
    ensures
        r == (strings_view(a@) == strings_view(b@)),
{
    if a.len() != b.len() {
        assert(strings_view(a@).len() != strings_view(b@).len());
        return false;
    }
    let mut i: usize = 0;
    while i < a.len()
        invariant
            a.len() == b.len(),
            i <= a.len(),
            forall|j: int| 0 <= j < i ==> a@[j]@ == b@[j]@,
        decreases a.len() - i,
    {
        if a[i] != b[i] {
            assert(strings_view(a@)[i as int] != strings_view(b@)[i as int]);
            return false;
        }
        i = i + 1;
    }
    assert(strings_view(a@) =~= strings_view(b@));
    true
}

pub fn clone_strings(a: &Vec<String>) -> (r: Vec<String>)
    ensures
        strings_view(r@) == strings_view(a@),
{
    let mut r: Vec<String> = Vec::new();
    let mut i: usize = 0;
    while i < a.len()
        invariant
            i <= a.len(),
            r@.len() == i,
            forall|j: int| 0 <= j < i ==> r@[j]@ == a@[j]@,
        decreases a.len() - i,
    {
        r.push(a[i].clone());
        i = i + 1;
    }
    assert(strings_view(r@) =~= strings_view(a@));
    r
}

impl Clone for Cloze {
    fn clone(&self) -> (r: Self)
        ensures
            r@ == self@,
    {
        let hint = match &self.hint {
            Some(h) => Some(h.clone()),
            None => None,
        };
        Cloze { id: self.id, answer: self.answer.clone(), hint }
    }
}

impl Clone for TextElement {
    fn clone(&self) -> (r: Self)
        ensures
            r@ == self@,
    {
        match self {
            TextElement::Text(s) => TextElement::Text(s.clone()),
            TextElement::Cloze(c) => TextElement::Cloze(c.clone()),
        }
    }
}

pub fn clone_content(a: &Vec<TextElement>) -> (r: Vec<TextElement>)
    ensures
        content_view(r@) == content_view(a@),
{
    let mut r: Vec<TextElement> = Vec::new();
    let mut i: usize = 0;
    while i < a.len()
        invariant
            i <= a.len(),
            r@.len() == i,
            forall|j: int| 0 <= j < i ==> r@[j]@ == a@[j]@,
        decreases a.len() - i,
    {
        r.push(a[i].clone());
        i = i + 1;
    }
    assert(content_view(r@) =~= content_view(a@));
    r
}

impl Clone for NoteField {
    fn clone(&self) -> (r: Self)
        ensures
            r@ == self@,
    {
        NoteField { name: self.name.clone(), content: clone_content(&self.content) }
    }
}

pub fn clone_fields(a: &Vec<NoteField>) -> (r: Vec<NoteField>)
    ensures
        fields_view(r@) == fields_view(a@),
{
    let mut r: Vec<NoteField> = Vec::new();
    let mut i: usize = 0;
    while i < a.len()
        invariant
            i <= a.len(),
            r@.len() == i,
            forall|j: int| 0 <= j < i ==> r@[j]@ == a@[j]@,
        decreases a.len() - i,
    {
        r.push(a[i].clone());
        i = i + 1;
    }
    assert(fields_view(r@) =~= fields_view(a@));
    r
}

impl Clone for Note {
    fn clone(&self) -> (r: Self)
        ensures
            r@ == self@,
    {
        Note {
            model: self.model.clone(),
            tags: clone_strings(&self.tags),
            fields: clone_fields(&self.fields),
        }
    }
}

impl PartialEq for Cloze {
    fn eq(&self, o: &Cloze) -> (r: bool) {
        self.id == o.id && self.answer == o.answer && eq_opt_string(&self.hint, &o.hint)
    }
}

impl vstd::std_specs::cmp::PartialEqSpecImpl for Cloze {
    open spec fn obeys_eq_spec() -> bool {
        true
    }

    open spec fn eq_spec(&self, o: &Cloze) -> bool {
        self@ == o@
    }
}

impl PartialEq for TextElement {
    fn eq(&self, o: &TextElement) -> (r: bool) {
        match self {
            TextElement::Text(a) => match o {
                TextElement::Text(b) => *a == *b,
                TextElement::Cloze(_) => false,
            },
            TextElement::Cloze(a) => match o {
                TextElement::Cloze(b) => *a == *b,
                TextElement::Text(_) => false,
            },
        }
    }
}

impl vstd::std_specs::cmp::PartialEqSpecImpl for TextElement {
    open spec fn obeys_eq_spec() -> bool {
        true
    }

    open spec fn eq_spec(&self, o: &TextElement) -> bool {
        self@ == o@
    }
}

pub fn eq_content(a: &Vec<TextElement>, b: &Vec<TextElement>) -> (r: bool)
    ensures
        r == (content_view(a@) == content_view(b@)),
{
    if a.len() != b.len() {
        assert(content_view(a@).len() != content_view(b@).len());
        return false;
    }
    let mut i: usize = 0;
    while i < a.len()
        invariant
            a.len() == b.len(),
            i <= a.len(),
            forall|j: int| 0 <= j < i ==> a@[j]@ == b@[j]@,
        decreases a.len() - i,
    {
        if a[i] != b[i] {
            assert(content_view(a@)[i as int] != content_view(b@)[i as int]);
            return false;
        }
        i = i + 1;
    }
    assert(content_view(a@) =~= content_view(b@));
    true
}

impl PartialEq for NoteField {
    fn eq(&self, o: &NoteField) -> (r: bool) {
        self.name == o.name && eq_content(&self.content, &o.content)
    }
}

impl vstd::std_specs::cmp::PartialEqSpecImpl for NoteField {
    open spec fn obeys_eq_spec() -> bool {
        true
    }

    open spec fn eq_spec(&self, o: &NoteField) -> bool {
        self@ == o@
    }
}

pub fn eq_fields(a: &Vec<NoteField>, b: &Vec<NoteField>) -> (r: bool)
    ensures
        r == (fields_view(a@) == fields_view(b@)),
{
    if a.len() != b.len() {
        assert(fields_view(a@).len() != fields_view(b@).len());
        return false;
    }
    let mut i: usize = 0;
    while i < a.len()
        invariant
            a.len() == b.len(),
            i <= a.len(),
            forall|j: int| 0 <= j < i ==> a@[j]@ == b@[j]@,
        decreases a.len() - i,
    {
        if a[i] != b[i] {
            assert(fields_view(a@)[i as int] != fields_view(b@)[i as int]);
            return false;
        }
        i = i + 1;
    }
    assert(fields_view(a@) =~= fields_view(b@));
    true
}

impl PartialEq for Note {
    fn eq(&self, o: &Note) -> (r: bool) {
        self.model == o.model && eq_strings(&self.tags, &o.tags) && eq_fields(&self.fields, &o.fields)
    }
}

impl vstd::std_specs::cmp::PartialEqSpecImpl for Note {
    open spec fn obeys_eq_spec() -> bool {
        true
    }

    open spec fn eq_spec(&self, o: &Note) -> bool {
        self@ == o@
    }
}

} // verus!
