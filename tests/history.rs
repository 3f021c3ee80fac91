use flash::error::DeckError;
use flash::history::{generate_note_uuids, process_card_history, Revision};
use flash::ident::create_host_uuid;
use flash::imports::{ImportExpander, Request};
use flash::note::{Field, NoteModel};

fn basic() -> Vec<NoteModel> {
    vec![NoteModel {
        name: "Basic".to_string(),
        id: 0,
        templates: Vec::new(),
        schema_version: semver::Version::new(1, 0, 0),
        defaults: None,
        css: String::new(),
        fields: vec![
            Field { name: "Front".to_string(), sticky: None, associated_media: None },
            Field { name: "Back".to_string(), sticky: None, associated_media: None },
        ],
        latex_pre: None,
        latex_post: None,
        sort_field: None,
        tags: None,
        required: String::new(),
    }]
}

fn rev(content: &str) -> Revision {
    Revision { author: "alice".to_string(), time: 100, content: content.to_string() }
}

const A: &str = "Front: A\nBack: a\n";
const B: &str = "Front: B\nBack: b\n";
const X: &str = "Front: X\nBack: x\n";

fn deck(notes: &[&str]) -> String {
    format!("= Basic =\n{}", notes.join("\n"))
}

#[test]
fn history_keeps_ids_through_changes() {
    let models = basic();
    let revs = vec![rev(&deck(&[A, B])), rev(&deck(&[A, X, B])), rev(&deck(&[A, X, "Front: B\nBack: b2\n"]))];
    let out = process_card_history(&models, &revs, false).unwrap();
    let host = create_host_uuid("alice".to_string(), 100);
    let first = flash::history::parse_cards(&models, &revs[0].content).unwrap();
    let first_ids = generate_note_uuids(&first, host);
    let second = flash::history::parse_cards(&models, &revs[1].content).unwrap();
    let x_id = second[1].identifier(host);
    assert_eq!(out.iter().map(|i| i.id).collect::<Vec<_>>(), vec![first_ids[0], x_id, first_ids[1]]);
    assert_eq!(out[2].inner.fields[1].content, vec![flash::note::TextElement::Text("b2".to_string())]);
}

#[test]
fn history_is_deterministic() {
    let models = basic();
    let revs = vec![rev(&deck(&[A, B])), rev(&deck(&[B, A]))];
    let one = process_card_history(&models, &revs, false).unwrap();
    let two = process_card_history(&models, &revs, false).unwrap();
    let view = |v: &Vec<flash::note::Identified<flash::note::Note>>| {
        v.iter().map(|i| (i.id, i.inner.clone())).collect::<Vec<_>>()
    };
    assert_eq!(view(&one), view(&two));
    assert_eq!(one[0].inner.fields[0].content, vec![flash::note::TextElement::Text("B".to_string())]);
}

#[test]
fn empty_history_is_an_error() {
    assert!(matches!(process_card_history(&basic(), &Vec::new(), false), Err(DeckError::EmptyHistory)));
}

#[test]
fn diagnostics_are_fatal_unless_lenient() {
    let models = basic();
    let revs = vec![rev("= Basic =\nFront: a\nOops: b\n")];
    assert!(matches!(process_card_history(&models, &revs, false), Err(DeckError::Parse(_))));
    let lenient = process_card_history(&models, &revs, true).unwrap();
    assert_eq!(lenient.len(), 1);
}

#[test]
fn positions_out_of_range_are_mixed_changes() {
    let models = basic();
    let c = "Front: C\nBack: c\n";
    let d = "Front: D\nBack: d\n";
    let revs = vec![rev(&deck(&[A, B, c])), rev(&deck(&[d])), rev(&deck(&[d, X]))];
    assert!(matches!(process_card_history(&models, &revs, false), Err(DeckError::MixedChanges)));
}

#[test]
fn expanding_without_imports_keeps_the_text() {
    let mut ex = ImportExpander::new("/deck".to_string());
    ex.enter("/deck/index.flash".to_string(), "/deck/index.flash".to_string(), "x\ny").unwrap();
    match ex.expand() {
        Request::Done(s) => assert_eq!(s, "x\ny\n"),
        other => panic!("unexpected {:?}", other),
    }
}

#[test]
fn imports_are_inlined_depth_first() {
    let mut ex = ImportExpander::new("/deck".to_string());
    ex.enter("/deck/index.flash".to_string(), "/deck/index.flash".to_string(), "a\n  import b.flash \nc").unwrap();
    match ex.expand() {
        Request::Import { importer, target } => {
            assert_eq!(importer, "/deck/index.flash");
            assert_eq!(target, "b.flash");
        }
        other => panic!("unexpected {:?}", other),
    }
    ex.enter("/deck/b.flash".to_string(), "/deck/b.flash".to_string(), "B1\r\n").unwrap();
    match ex.expand() {
        Request::Done(s) => assert_eq!(s, "a\nB1\n\nc\n"),
        other => panic!("unexpected {:?}", other),
    }
}

#[test]
fn import_cycle_is_an_error() {
    let mut ex = ImportExpander::new("/deck".to_string());
    ex.enter("/deck/a.flash".to_string(), "/deck/a.flash".to_string(), "import a.flash\n").unwrap();
    assert!(matches!(ex.expand(), Request::Import { .. }));
    match ex.enter("/deck/./a.flash".to_string(), "/deck/a.flash".to_string(), "import a.flash\n") {
        Err(DeckError::CircularImport(p)) => assert_eq!(p, "/deck/./a.flash"),
        other => panic!("unexpected {:?}", other),
    }
}

#[test]
fn find_model_by_name() {
    let models = basic();
    assert_eq!(flash::history::find_model(&models, "Basic").unwrap().name, "Basic");
    match flash::history::find_model(&models, "Other") {
        Err(DeckError::ModelNotFound(n)) => assert_eq!(n, "Other"),
        other => panic!("unexpected {:?}", other.map(|m| m.name.clone())),
    }
}
