use flash::classify::{determine_changes, Transforms};
use flash::export::{ClozeString, NoteModelType};
use flash::ident::{create_host_uuid, generate_note_uuid, NAMESPACE_DNS};
use flash::note::{Identified, Note, NoteField, TextElement};
use flash::resolve::{is_applicable, resolve_changes};

fn note(front: &str) -> Note {
    Note {
        model: "Basic".to_string(),
        tags: Vec::new(),
        fields: vec![NoteField { name: "Front".to_string(), content: vec![TextElement::Text(front.to_string())] }],
    }
}

fn identified(notes: &[Note], ids: &[u128]) -> Vec<Identified<Note>> {
    notes.iter().zip(ids).map(|(n, id)| Identified { id: *id, inner: n.clone() }).collect()
}

fn pairs(v: &[Identified<Note>]) -> Vec<(u128, Note)> {
    v.iter().map(|i| (i.id, i.inner.clone())).collect()
}

#[test]
fn equal_lists_have_no_change() {
    let a = vec![note("A"), note("B")];
    assert!(matches!(determine_changes(&a, &a.clone()), Ok(None)));
}

#[test]
fn classifier_finds_addition() {
    let old = vec![note("A"), note("B")];
    let new = vec![note("A"), note("X"), note("B")];
    match determine_changes(&old, &new) {
        Ok(Some(Transforms::Additions(v))) => assert_eq!(v, vec![(1, note("X"))]),
        other => panic!("unexpected {:?}", other),
    }
}

#[test]
fn classifier_finds_deletion() {
    let old = vec![note("A"), note("B"), note("C")];
    let new = vec![note("A"), note("C")];
    match determine_changes(&old, &new) {
        Ok(Some(Transforms::Deletions(v))) => assert_eq!(v, vec![1]),
        other => panic!("unexpected {:?}", other),
    }
}

#[test]
fn deletions_come_highest_first() {
    let old = vec![note("A"), note("B"), note("C"), note("D")];
    let new = vec![note("B"), note("D")];
    match determine_changes(&old, &new) {
        Ok(Some(Transforms::Deletions(v))) => assert_eq!(v, vec![2, 0]),
        other => panic!("unexpected {:?}", other),
    }
}

#[test]
fn classifier_finds_reorder() {
    let old = vec![note("A"), note("B"), note("C")];
    let new = vec![note("C"), note("B"), note("A")];
    match determine_changes(&old, &new) {
        Ok(Some(Transforms::Reorders(v))) => assert_eq!(v, vec![(0, 2)]),
        other => panic!("unexpected {:?}", other),
    }
}

#[test]
fn classifier_finds_modification() {
    let old = vec![note("A"), note("B")];
    let new = vec![note("A"), note("B2")];
    match determine_changes(&old, &new) {
        Ok(Some(Transforms::Modifications(v))) => assert_eq!(v, vec![(1, note("B2"))]),
        other => panic!("unexpected {:?}", other),
    }
}

#[test]
fn same_length_with_a_repeated_note_is_a_modification() {
    let old = vec![note("A"), note("B")];
    let new = vec![note("A"), note("A")];
    assert!(matches!(determine_changes(&old, &new), Ok(Some(Transforms::Modifications(_)))));
}

#[test]
fn modification_preserves_id() {
    let mut sub = identified(&[note("A"), note("B")], &[10, 11]);
    resolve_changes(&Transforms::Modifications(vec![(1, note("B'"))]), &mut sub, 99);
    assert_eq!(pairs(&sub), pairs(&identified(&[note("A"), note("B'")], &[10, 11])));
}

#[test]
fn addition_gets_content_identifier() {
    let host = create_host_uuid("alice".to_string(), 1_700_000_000);
    let mut sub = identified(&[note("A"), note("B")], &[10, 11]);
    resolve_changes(&Transforms::Additions(vec![(1, note("X"))]), &mut sub, host);
    let x_id = note("X").identifier(host);
    assert_eq!(x_id, generate_note_uuid(host, "FrontX"));
    assert_eq!(pairs(&sub), pairs(&identified(&[note("A"), note("X"), note("B")], &[10, x_id, 11])));
}

#[test]
fn deletions_highest_first_match_the_new_list() {
    let mut sub = identified(&[note("A"), note("B"), note("C"), note("D")], &[1, 2, 3, 4]);
    resolve_changes(&Transforms::Deletions(vec![2, 0]), &mut sub, 0);
    assert_eq!(pairs(&sub), pairs(&identified(&[note("B"), note("D")], &[2, 4])));
}

#[test]
fn reorder_swaps_keep_ids() {
    let old = vec![note("A"), note("B"), note("C")];
    let new = vec![note("C"), note("B"), note("A")];
    let mut sub = identified(&old, &[1, 2, 3]);
    let t = determine_changes(&old, &new).unwrap().unwrap();
    resolve_changes(&t, &mut sub, 0);
    assert_eq!(pairs(&sub), pairs(&identified(&new, &[3, 2, 1])));
}

#[test]
fn applicability_is_checked() {
    assert!(is_applicable(&Transforms::Deletions(vec![1, 0]), 2));
    assert!(!is_applicable(&Transforms::Deletions(vec![0, 1]), 2));
    assert!(is_applicable(&Transforms::Additions(vec![(2, note("X"))]), 2));
    assert!(!is_applicable(&Transforms::Additions(vec![(3, note("X"))]), 2));
    assert!(!is_applicable(&Transforms::Modifications(vec![(2, note("X"))]), 2));
    assert!(!is_applicable(&Transforms::Reorders(vec![(0, 2)]), 2));
}

#[test]
fn dns_namespace_matches_uuid_crate() {
    assert_eq!(NAMESPACE_DNS, uuid::Uuid::NAMESPACE_DNS.as_u128());
}

#[test]
fn host_uuid_is_v5_of_author_and_time() {
    let expected = uuid::Uuid::new_v5(&uuid::Uuid::NAMESPACE_DNS, b"alice1700000000").as_u128();
    assert_eq!(create_host_uuid("alice".to_string(), 1_700_000_000), expected);
    let negative = uuid::Uuid::new_v5(&uuid::Uuid::NAMESPACE_DNS, b"bob-42").as_u128();
    assert_eq!(create_host_uuid("bob".to_string(), -42), negative);
    let min = uuid::Uuid::new_v5(&uuid::Uuid::NAMESPACE_DNS, b"c-9223372036854775808").as_u128();
    assert_eq!(create_host_uuid("c".to_string(), i64::MIN), min);
    assert_eq!(create_host_uuid("alice".to_string(), 5), create_host_uuid("alice".to_string(), 5));
}

#[test]
fn note_uuid_is_v5_in_host_namespace() {
    let host = 0x1234_5678_9abc_def0_0fed_cba9_8765_4321u128;
    let expected = uuid::Uuid::new_v5(&uuid::Uuid::from_u128(host), "héllo".as_bytes()).as_u128();
    assert_eq!(generate_note_uuid(host, "héllo"), expected);
    assert_ne!(generate_note_uuid(host, "héllo"), host);
}

#[test]
fn content_string_ignores_tags_and_cloze_details() {
    let a = Note {
        model: "Cloze".to_string(),
        tags: vec!["x".to_string()],
        fields: vec![
            NoteField {
                name: "Body".to_string(),
                content: vec![
                    TextElement::Text("The capital is ".to_string()),
                    TextElement::Cloze(flash::note::Cloze { id: 0, answer: "Paris".to_string(), hint: None }),
                ],
            },
            NoteField { name: "Extra".to_string(), content: vec![TextElement::Text("e".to_string())] },
        ],
    };
    let mut b = a.clone();
    b.tags = Vec::new();
    b.fields[0].content[1] =
        TextElement::Cloze(flash::note::Cloze { id: 3, answer: "Paris".to_string(), hint: Some("city".to_string()) });
    assert_eq!(a.to_content_string(), "BodyThe capital is \0ParisExtrae");
    assert_eq!(a.to_content_string(), b.to_content_string());
    assert_eq!(a.identifier(7), b.identifier(7));
}

#[test]
fn cloze_string_follows_anki_form() {
    let with_hint = flash::note::Cloze { id: 12, answer: "Paris".to_string(), hint: Some("city".to_string()) };
    assert_eq!(ClozeString::from(with_hint).0, "{{c12::Paris::city}}");
    let plain = flash::note::Cloze { id: 0, answer: "4".to_string(), hint: None };
    assert_eq!(ClozeString::from(plain).0, "{{c0::4}}");
}

#[test]
fn field_renders_text_and_clozes() {
    let content = vec![
        TextElement::Text("The capital is ".to_string()),
        TextElement::Cloze(flash::note::Cloze { id: 1, answer: "Paris".to_string(), hint: None }),
        TextElement::Text(".".to_string()),
    ];
    assert_eq!(flash::export::render_field(&content), "The capital is {{c1::Paris}}.");
}

#[test]
fn note_model_type_codes() {
    assert_eq!(NoteModelType::Standard.code(), 0);
    assert_eq!(NoteModelType::Cloze.code(), 1);
    assert_eq!(NoteModelType::from_code(1), Some(NoteModelType::Cloze));
    assert_eq!(NoteModelType::from_code(2), None);
}
