use notefile::NoteError;
use notefile::store::{get_note, insert, note_exists, remove, replace, toggle_tag};
use notefile::text::parse_content;
use notefile::types::Notes;

fn sample() -> Notes {
    let nf = Notes::new();
    let nf = insert(
        &nf,
        &"a".to_string(),
        &"Groceries".to_string(),
        &"milk, eggs".to_string(),
        100,
    )
    .unwrap();
    insert(&nf, &"b".to_string(), &"Chores".to_string(), &"laundry".to_string(), 200).unwrap()
}

#[test]
fn insert_appends_note() {
    let nf = sample();
    assert_eq!(nf.0.len(), 2);
    assert_eq!(nf.0[0].id, "a");
    assert_eq!(nf.0[0].title, "Groceries");
    assert_eq!(nf.0[0].body, "milk, eggs");
    assert_eq!(nf.0[0].created, 100);
    assert_eq!(nf.0[0].edited, 100);
    assert!(nf.0[0].tags.is_empty());
    assert_eq!(nf.0[1].id, "b");
}

#[test]
fn insert_rejects_duplicate_id() {
    let nf = sample();
    let before = nf.0.clone();
    let r = insert(&nf, &"a".to_string(), &"Other".to_string(), &"text".to_string(), 300);
    assert_eq!(r, Err(NoteError::AlreadyExists));
    assert_eq!(nf.0, before);
}

#[test]
fn exists_and_get() {
    let nf = sample();
    assert!(note_exists(&nf, &"a".to_string()));
    assert!(!note_exists(&nf, &"zz".to_string()));
    let n = get_note(&nf, &"b".to_string()).unwrap();
    assert_eq!(n.title, "Chores");
    assert_eq!(
        get_note(&nf, &"zz".to_string()),
        Err(NoteError::NotFound)
    );
}

#[test]
fn replace_preserves_identity_fields() {
    let nf = sample();
    let (nf, added) = toggle_tag(&nf, &"a".to_string(), &"food".to_string()).unwrap();
    assert!(added);
    let nf2 = replace(&nf, &"a".to_string(), &"List".to_string(), &"bread".to_string(), 500)
        .unwrap();
    let n = get_note(&nf2, &"a".to_string()).unwrap();
    assert_eq!(n.id, "a");
    assert_eq!(n.created, 100);
    assert_eq!(n.edited, 500);
    assert_eq!(n.title, "List");
    assert_eq!(n.body, "bread");
    assert_eq!(n.tags, vec!["food".to_string()]);
    // order kept
    assert_eq!(nf2.0[0].id, "a");
    assert_eq!(nf2.0[1].id, "b");
}

#[test]
fn replace_missing_fails() {
    let nf = sample();
    let r = replace(&nf, &"zz".to_string(), &"t".to_string(), &"b".to_string(), 500);
    assert_eq!(r, Err(NoteError::NotFound));
}

#[test]
fn remove_keeps_order_of_rest() {
    let nf = sample();
    let nf = insert(&nf, &"c".to_string(), &"Third".to_string(), &"x".to_string(), 300).unwrap();
    let nf2 = remove(&nf, &"b".to_string()).unwrap();
    assert_eq!(nf2.0.len(), 2);
    assert_eq!(nf2.0[0].id, "a");
    assert_eq!(nf2.0[1].id, "c");
}

#[test]
fn remove_missing_fails_and_leaves_notefile() {
    let nf = sample();
    let before = nf.0.clone();
    let r = remove(&nf, &"missing-id".to_string());
    assert_eq!(r, Err(NoteError::NotFound));
    assert_eq!(nf.0, before);
}

#[test]
fn toggle_tag_adds_then_removes() {
    let nf = sample();
    let (nf, added) = toggle_tag(&nf, &"a".to_string(), &"urgent".to_string()).unwrap();
    assert!(added);
    assert_eq!(get_note(&nf, &"a".to_string()).unwrap().tags, vec!["urgent".to_string()]);
    let (nf, added) = toggle_tag(&nf, &"a".to_string(), &"urgent".to_string()).unwrap();
    assert!(!added);
    assert!(get_note(&nf, &"a".to_string()).unwrap().tags.is_empty());
}

#[test]
fn toggle_twice_restores_tag_set() {
    let nf = sample();
    let (nf, _) = toggle_tag(&nf, &"a".to_string(), &"x".to_string()).unwrap();
    let (nf, _) = toggle_tag(&nf, &"a".to_string(), &"y".to_string()).unwrap();
    // remove x, then add it back: same set, x now at the end
    let (nf, added) = toggle_tag(&nf, &"a".to_string(), &"x".to_string()).unwrap();
    assert!(!added);
    let (nf, added) = toggle_tag(&nf, &"a".to_string(), &"x".to_string()).unwrap();
    assert!(added);
    let tags = get_note(&nf, &"a".to_string()).unwrap().tags;
    assert_eq!(tags, vec!["y".to_string(), "x".to_string()]);
}

#[test]
fn toggle_tag_missing_note_fails() {
    let nf = sample();
    let r = toggle_tag(&nf, &"zz".to_string(), &"t".to_string());
    assert_eq!(r, Err(NoteError::NotFound));
}

#[test]
fn parse_content_splits_title_and_body() {
    let r = parse_content(&"Title\n\nbody line\nmore\n\n".to_string()).unwrap();
    assert_eq!(r.0, "Title");
    assert_eq!(r.1, "body line\nmore");
}

#[test]
fn parse_content_keeps_interior_blank_lines() {
    let r = parse_content(&"T\nfirst\n\nsecond".to_string()).unwrap();
    assert_eq!(r.0, "T");
    assert_eq!(r.1, "first\n\nsecond");
}

#[test]
fn parse_content_without_newline_has_empty_body() {
    let r = parse_content(&"only a title".to_string()).unwrap();
    assert_eq!(r.0, "only a title");
    assert_eq!(r.1, "");
}

#[test]
fn parse_content_rejects_unmodified_template() {
    let r = parse_content(&"<title>\n<body>\n".to_string());
    assert_eq!(r, Err(NoteError::EmptyContent));
}
