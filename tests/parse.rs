use flash::history::parse_cards;
use flash::lexer::{lex_str, Token};
use flash::note::{Cloze, Field, Note, NoteField, NoteModel, TextElement};
use flash::parser::{flash, DiagnosticKind};

fn model(name: &str, fields: &[&str]) -> NoteModel {
    NoteModel {
        name: name.to_string(),
        id: 0,
        templates: Vec::new(),
        schema_version: semver::Version::new(1, 0, 0),
        defaults: None,
        css: String::new(),
        fields: fields
            .iter()
            .map(|f| Field { name: f.to_string(), sticky: None, associated_media: None })
            .collect(),
        latex_pre: None,
        latex_post: None,
        sort_field: None,
        tags: None,
        required: String::new(),
    }
}

fn text(s: &str) -> TextElement {
    TextElement::Text(s.to_string())
}

fn basic_note() -> Note {
    Note {
        model: "Basic".to_string(),
        tags: Vec::new(),
        fields: vec![
            NoteField { name: "Front".to_string(), content: vec![text("What is 2+2?")] },
            NoteField { name: "Back".to_string(), content: vec![text("4")] },
        ],
    }
}

#[test]
fn parses_a_single_note() {
    let models = vec![model("Basic", &["Front", "Back"])];
    let (notes, diags) = flash(&models, "= Basic =\n\nFront: What is 2+2?\nBack: 4\n");
    assert!(diags.is_empty());
    assert_eq!(notes.len(), 1);
    assert_eq!(notes[0].model, "Basic");
    assert!(notes[0].tags.is_empty());
    assert_eq!(notes[0], basic_note());
}

#[test]
fn alias_resolves_to_canonical_field() {
    let models = vec![model("Basic", &["Front", "Back"])];
    let (notes, diags) =
        flash(&models, "= Basic =\nalias Front to Q\n\nQ: What is 2+2?\nBack: 4\n");
    assert!(diags.is_empty());
    assert_eq!(notes, vec![basic_note()]);
    assert_eq!(notes[0].fields[0].name, "Front");
}

#[test]
fn alias_in_reverse_direction_is_rejected() {
    let models = vec![model("Basic", &["Front", "Back"])];
    let (notes, diags) = flash(&models, "= Basic =\nalias Q to Front\nQ: x\nBack: 4\n");
    assert_eq!(diags.len(), 2);
    match &diags[0].kind {
        DiagnosticKind::InvalidAliasTarget { model, target } => {
            assert_eq!(model, "Basic");
            assert_eq!(target, "Q");
        }
        other => panic!("unexpected {:?}", other),
    }
    match &diags[1].kind {
        DiagnosticKind::UnknownField { model, field, available } => {
            assert_eq!(model, "Basic");
            assert_eq!(field, "Q");
            assert_eq!(available, &vec!["Front".to_string(), "Back".to_string()]);
        }
        other => panic!("unexpected {:?}", other),
    }
    assert_eq!(notes.len(), 1);
    assert_eq!(notes[0].fields.len(), 1);
    assert_eq!(notes[0].fields[0].name, "Back");
}

#[test]
fn cloze_and_coalesced_text() {
    let models = vec![model("Cloze", &["Body"])];
    let (notes, diags) =
        flash(&models, "= Cloze =\nBody: The capital of {France|a country} is {Paris}.\n");
    assert!(diags.is_empty());
    assert_eq!(notes.len(), 1);
    let expected = vec![
        text("The capital of "),
        TextElement::Cloze(Cloze { id: 0, answer: "France".to_string(), hint: Some("a country".to_string()) }),
        text(" is "),
        TextElement::Cloze(Cloze { id: 0, answer: "Paris".to_string(), hint: None }),
        text("."),
    ];
    assert_eq!(notes[0].fields[0].content, expected);
    let content = &notes[0].fields[0].content;
    for pair in content.windows(2) {
        assert!(!(matches!(pair[0], TextElement::Text(_)) && matches!(pair[1], TextElement::Text(_))));
    }
}

#[test]
fn tags_are_trimmed_and_trailing_comma_allowed() {
    let models = vec![model("Basic", &["Front", "Back"])];
    let (notes, diags) = flash(&models, "= Basic =\n[ math , easy to do,]\nFront: a\nBack: b\n");
    assert!(diags.is_empty());
    assert_eq!(notes[0].tags, vec!["math".to_string(), "easy to do".to_string()]);
}

#[test]
fn blank_line_separates_notes_and_comments_are_dropped() {
    let models = vec![model("Basic", &["Front", "Back"])];
    let src = "= Basic =\n// a comment\nFront: a\nBack: b\n\nFront: c // trailing\nBack: d";
    let (notes, diags) = flash(&models, src);
    assert!(diags.is_empty());
    assert_eq!(notes.len(), 2);
    assert_eq!(notes[1].fields[0].content, vec![text("c ")]);
    assert_eq!(notes[1].fields[1].content, vec![text("d")]);
}

#[test]
fn unknown_model_is_diagnosed() {
    let models = vec![model("Basic", &["Front", "Back"])];
    let (notes, diags) = flash(&models, "= Missing =\nFront: a\n");
    assert!(notes.is_empty());
    match &diags[0].kind {
        DiagnosticKind::UnknownModel { name, available } => {
            assert_eq!(name, "Missing");
            assert_eq!(available, &vec!["Basic".to_string()]);
        }
        other => panic!("unexpected {:?}", other),
    }
    assert_eq!((diags[0].start, diags[0].end), (0, 11));
    assert!(matches!(diags[1].kind, DiagnosticKind::ModelNotSpecified));
}

#[test]
fn field_without_model_is_diagnosed() {
    let (notes, diags) = flash(&[], "Front: a\n");
    assert!(notes.is_empty());
    assert_eq!(diags.len(), 1);
    assert!(matches!(diags[0].kind, DiagnosticKind::ModelNotSpecified));
}

#[test]
fn duplicate_field_is_diagnosed() {
    let models = vec![model("Basic", &["Front", "Back"])];
    let (notes, diags) = flash(&models, "= Basic =\nFront: a\nFront: b\n");
    assert_eq!(notes.len(), 1);
    match &diags[0].kind {
        DiagnosticKind::DuplicateField { field } => assert_eq!(field, "Front"),
        other => panic!("unexpected {:?}", other),
    }
}

#[test]
fn malformed_line_is_diagnosed_and_skipped() {
    let models = vec![model("Basic", &["Front", "Back"])];
    let (notes, diags) = flash(&models, "= Basic =\nFront: a } b\nBack: c\n");
    assert_eq!(diags.len(), 1);
    assert!(matches!(diags[0].kind, DiagnosticKind::Syntax));
    assert_eq!((diags[0].start, diags[0].end), (10, 22));
    assert_eq!(notes.len(), 1);
    assert_eq!(notes[0].fields.len(), 1);
}

#[test]
fn parsing_twice_gives_the_same_result() {
    let models = vec![model("Basic", &["Front", "Back"])];
    let src = "= Basic =\n[t]\nFront: {x|y} z\nBack: w\n\n= Nope =\n";
    let (n1, d1) = flash(&models, src);
    let (n2, d2) = flash(&models, src);
    assert_eq!(n1, n2);
    assert_eq!(format!("{:?}", d1), format!("{:?}", d2));
}

#[test]
fn parse_cards_fails_on_diagnostics() {
    let models = vec![model("Basic", &["Front", "Back"])];
    assert!(parse_cards(&models, "= Basic =\nFront: a\n").is_ok());
    assert!(matches!(parse_cards(&models, "= Basic =\nOther: a\n"), Err(flash::error::DeckError::Parse(_))));
}

#[test]
fn lexer_reads_keywords_comments_and_text() {
    let toks = lex_str("alias to aliases: //c d\n");
    let kinds: Vec<String> = toks.iter().map(|t| format!("{:?}", t.token)).collect();
    assert_eq!(
        kinds,
        vec![
            "Alias", "WS(\" \")", "To", "WS(\" \")", "Text(\"aliases\")", "Colon", "WS(\" \")",
            "Comment(\"//c d\")", "Newline"
        ]
    );
    assert_eq!((toks[4].start, toks[4].end), (9, 16));
    assert!(matches!(toks[8].token, Token::Newline));
}
