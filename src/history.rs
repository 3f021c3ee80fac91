//! The history fold: from the revisions of a deck's entry file, oldest first,
//! to the identified note list.
use vstd::prelude::*;
use crate::classify::{classify, determine_changes};
use crate::error::DeckError;
use crate::ident::{NAMESPACE_DNS, create_host_uuid, decimal, note_uuid, uuid_v5};
use crate::note::{Identified, ModelView, Note, NoteModel, NoteView, identified_view, models_view, notes_view};
use crate::parser::{DiagnosticView, diagnostics_view, flash, parse_result};
use crate::resolve::{applicable, is_applicable, resolve_changes, resolved};

verus! {

/// One revision of the entry file: its commit's author and time, and the
/// file's text with imports expanded.
#[derive(Debug)]
pub struct Revision {
    pub author: String,
    pub time: i64,
    pub content: String,
}

pub struct RevisionView {
    pub author: Seq<char>,
    pub time: i64,
    pub content: Seq<char>,
}

impl View for Revision {
    type V = RevisionView;

    open spec fn view(&self) -> RevisionView {
        RevisionView { author: self.author@, time: self.time, content: self.content@ }
    }
}

pub open spec fn revisions_view(v: Seq<Revision>) -> Seq<RevisionView> {
    v.map_values(|r: Revision| r@)
}

/// The notes of a revision, or its diagnostics where they are fatal.
pub open spec fn revision_notes(content: Seq<char>, ms: Seq<ModelView>, lenient: bool) -> Result<Seq<NoteView>, Seq<DiagnosticView>> {
    let (notes, diags) = parse_result(content, ms);
    if diags.len() > 0 && !lenient { Err(diags) } else { Ok(notes) }
}

/// Each note paired with the identifier of its content.
pub open spec fn identify_all(notes: Seq<NoteView>, host: u128) -> Seq<(u128, NoteView)> {
    notes.map_values(|n: NoteView| (note_uuid(host, n), n))
}

pub open spec fn host_of(r: RevisionView) -> u128 {
    uuid_v5(NAMESPACE_DNS, r.author + decimal(r.time as int))
}

/// What a history walk ends in.
pub enum HistoryView {
    Identified(Seq<(u128, NoteView)>),
    Empty,
    Parse(Seq<DiagnosticView>),
    Mixed,
    Other,
}

/// The substrate after one more revision's change.
pub open spec fn cycle(prev: Seq<NoteView>, cur: Seq<NoteView>, sub: Seq<(u128, NoteView)>, host: u128) -> Option<Seq<(u128, NoteView)>> {
    match classify(prev, cur) {
        None => Some(sub),
        Some(t) => if applicable(t, sub.len() as int) { Some(resolved(t, sub, host)) } else { None },
    }
}

/// Folds the revisions from the `k`-th on into the substrate.
pub open spec fn fold_history(
    revs: Seq<RevisionView>,
    k: int,
    prev: Seq<NoteView>,
    sub: Seq<(u128, NoteView)>,
    host: u128,
    ms: Seq<ModelView>,
    lenient: bool,
) -> HistoryView
    decreases revs.len() - k,
{
    if k < 0 || k >= revs.len() {
        HistoryView::Identified(sub)
    } else {
        match revision_notes(revs[k].content, ms, lenient) {
            Err(d) => HistoryView::Parse(d),
            Ok(cur) => match cycle(prev, cur, sub, host) {
                Some(next) => fold_history(revs, k + 1, cur, next, host, ms, lenient),
                None => HistoryView::Mixed,
            },
        }
    }
}

/// The identified note list of a history: the first revision fixes the host
/// namespace and the initial identifiers; each later one is classified against
/// the one before and applied.
pub open spec fn history_result(revs: Seq<RevisionView>, ms: Seq<ModelView>, lenient: bool) -> HistoryView {
    if revs.len() == 0 {
        HistoryView::Empty
    } else {
        match revision_notes(revs[0].content, ms, lenient) {
            Err(d) => HistoryView::Parse(d),
            Ok(first) => fold_history(revs, 1, first, identify_all(first, host_of(revs[0])), host_of(revs[0]), ms, lenient),
        }
    }
}

pub open spec fn history_view(r: Result<Vec<Identified<Note>>, DeckError>) -> HistoryView {
    match r {
        Ok(v) => HistoryView::Identified(identified_view(v@)),
        Err(DeckError::EmptyHistory) => HistoryView::Empty,
        Err(DeckError::Parse(d)) => HistoryView::Parse(diagnostics_view(d@)),
        Err(DeckError::MixedChanges) => HistoryView::Mixed,
        Err(_) => HistoryView::Other,
    }
}

/// Parses one revision's text; diagnostics are an error unless `lenient`.
pub fn parse_revision(models: &[NoteModel], content: &str, lenient: bool) -> (r: Result<Vec<Note>, DeckError>)
    ensures
        match r {
            Ok(v) => revision_notes(content@, models_view(models@), lenient) == Ok::<Seq<NoteView>, Seq<DiagnosticView>>(notes_view(v@)),
            Err(DeckError::Parse(d)) => revision_notes(content@, models_view(models@), lenient) == Err::<Seq<NoteView>, Seq<DiagnosticView>>(diagnostics_view(d@)),
            Err(_) => false,
        },
{
    let (notes, diags) = flash(models, content);
    if diags.len() > 0 && !lenient {
        Err(DeckError::Parse(diags))
    } else {
        Ok(notes)
    }
}

/// Parses a revision's text, failing on any diagnostic.
pub fn parse_cards(models: &[NoteModel], content: &str) -> (r: Result<Vec<Note>, DeckError>)
    ensures
        match r {
            Ok(v) => revision_notes(content@, models_view(models@), false) == Ok::<Seq<NoteView>, Seq<DiagnosticView>>(notes_view(v@)),
            Err(DeckError::Parse(d)) => revision_notes(content@, models_view(models@), false) == Err::<Seq<NoteView>, Seq<DiagnosticView>>(diagnostics_view(d@)),
            Err(_) => false,
        },
{
    parse_revision(models, content, false)
}

/// The identifiers of notes within a host namespace.
pub fn generate_note_uuids(notes: &Vec<Note>, host_uuid: u128) -> (r: Vec<u128>)
    ensures
        r@.len() == notes@.len(),
        forall|k: int| 0 <= k < notes@.len() ==> r@[k] == note_uuid(host_uuid, #[trigger] notes@[k]@),
{
    let mut r: Vec<u128> = Vec::new();
    let mut k: usize = 0;
    while k < notes.len()
        invariant
            k <= notes@.len(),
            r@.len() == k,
            forall|m: int| 0 <= m < k ==> r@[m] == note_uuid(host_uuid, #[trigger] notes@[m]@),
        decreases notes.len() - k,
    {
        r.push(notes[k].identifier(host_uuid));
        k = k + 1;
    }
    r
}

/// The first revision's notes, each with the identifier of its content.
pub fn initialize_cards(cards: &Vec<Note>, host_uuid: u128) -> (r: Vec<Identified<Note>>)
    ensures
        identified_view(r@) == identify_all(notes_view(cards@), host_uuid),
{
    let mut r: Vec<Identified<Note>> = Vec::new();
    let mut k: usize = 0;
    while k < cards.len()
        invariant
            k <= cards@.len(),
            r@.len() == k,
            forall|m: int| 0 <= m < k ==> #[trigger] r@[m].id == note_uuid(host_uuid, cards@[m]@) && r@[m].inner@ == cards@[m]@,
        decreases cards.len() - k,
    {
        let id = cards[k].identifier(host_uuid);
        r.push(Identified { id, inner: cards[k].clone() });
        k = k + 1;
    }
    assert(identified_view(r@) =~= identify_all(notes_view(cards@), host_uuid));
    r
}

/// Applies the change from `last_cards` to `current_cards` to the identified
/// list; fails, leaving it as it was, where the change names positions that
/// the list does not have.
pub fn process_cycle(
    last_cards: &Vec<Note>,
    current_cards: &Vec<Note>,
    static_cards: &mut Vec<Identified<Note>>,
    host_uuid: u128,
) -> (r: Result<(), DeckError>)
    ensures
        match cycle(notes_view(last_cards@), notes_view(current_cards@), identified_view(old(static_cards)@), host_uuid) {
            Some(next) => r is Ok && identified_view(final(static_cards)@) == next,
            None => r matches Err(DeckError::MixedChanges) && final(static_cards)@ == old(static_cards)@,
        },
{
    match determine_changes(last_cards, current_cards) {
        Ok(Some(changes)) => {
            if !is_applicable(&changes, static_cards.len()) {
                return Err(DeckError::MixedChanges);
            }
            resolve_changes(&changes, static_cards, host_uuid);
            Ok(())
        },
        Ok(None) => Ok(()),
        Err(e) => Err(e),
    }
}

/// Walks the revisions of the entry file, oldest first, and returns the
/// identified note list of the newest.
pub fn process_card_history(models: &[NoteModel], revisions: &Vec<Revision>, lenient: bool) -> (r: Result<Vec<Identified<Note>>, DeckError>)
    ensures
        history_view(r) == history_result(revisions_view(revisions@), models_view(models@), lenient),
{
    let ghost rv = revisions_view(revisions@);
    let ghost ms = models_view(models@);
    if revisions.len() == 0 {
        return Err(DeckError::EmptyHistory);
    }
    let first = &revisions[0];
    assert(rv[0] == first@);
    let first_cards = match parse_revision(models, first.content.as_str(), lenient) {
        Ok(v) => v,
        Err(e) => {
            return Err(e);
        },
    };
    let host_uuid = create_host_uuid(first.author.clone(), first.time);
    assert(host_uuid == host_of(rv[0]));
    let mut elder_cards = initialize_cards(&first_cards, host_uuid);
    let mut bygone_cards = first_cards;
    let mut k: usize = 1;
    while k < revisions.len()
        invariant
            1 <= k <= revisions@.len(),
            rv == revisions_view(revisions@),
            ms == models_view(models@),
            rv.len() > 0,
            host_uuid == host_of(rv[0]),
            fold_history(rv, k as int, notes_view(bygone_cards@), identified_view(elder_cards@), host_uuid, ms, lenient)
                == history_result(rv, ms, lenient),
        decreases revisions.len() - k,
    {
        assert(rv[k as int] == revisions@[k as int]@);
        let cards_of_the_day = match parse_revision(models, revisions[k].content.as_str(), lenient) {
            Ok(v) => v,
            Err(e) => {
                return Err(e);
            },
        };
        match process_cycle(&bygone_cards, &cards_of_the_day, &mut elder_cards, host_uuid) {
            Ok(()) => {},
            Err(e) => {
                return Err(e);
            },
        }
        bygone_cards = cards_of_the_day;
        k = k + 1;
    }
    Ok(elder_cards)
}

} // verus!

verus! {

/// The first model named `name`.
pub fn find_model<'a>(models: &'a [NoteModel], name: &str) -> (r: Result<&'a NoteModel, DeckError>)
    ensures
        crate::parser::model_index(models_view(models@), name@, 0) < models@.len() ==> (r matches Ok(m)
            && *m == models@[crate::parser::model_index(models_view(models@), name@, 0)]),
        crate::parser::model_index(models_view(models@), name@, 0) >= models@.len() ==> (r matches Err(
            DeckError::ModelNotFound(n),
        ) && n@ == name@),
{
    let mut owned = String::new();
    crate::text::push_str(&mut owned, name);
    let idx = crate::parser::find_model_index(models, &owned);
    if idx < models.len() {
        Ok(&models[idx])
    } else {
        Err(DeckError::ModelNotFound(owned))
    }
}

} // verus!
