use notefile::highlight::highlight;
use notefile::query::{search_tags, search_text};
use notefile::types::{Note, Notes};

fn note(id: &str, title: &str, body: &str, tags: &[&str]) -> Note {
    Note {
        id: id.to_string(),
        title: title.to_string(),
        body: body.to_string(),
        edited: 0,
        created: 1,
        tags: tags.iter().map(|t| t.to_string()).collect(),
    }
}

fn sample() -> Notes {
    Notes(vec![
        note("a", "Groceries", "milk, eggs", &["food"]),
        note("b", "Chores", "laundry and milk run", &["home", "food"]),
        note("c", "Ideas", "write more tests", &[]),
    ])
}

#[test]
fn search_text_on_empty_notefile_is_empty() {
    let nf = Notes::new();
    let r = search_text(&nf, &vec!["milk".to_string()]);
    assert!(r.is_empty());
}

#[test]
fn search_text_matches_title_body_and_id() {
    let nf = sample();
    // "milk" is in the body of both a and b
    let r = search_text(&nf, &vec!["milk".to_string()]);
    let ids: Vec<&str> = r.iter().map(|n| n.id.as_str()).collect();
    assert_eq!(ids, vec!["a", "b"]);
    // "Ideas" only in the title of c
    let r = search_text(&nf, &vec!["Ideas".to_string()]);
    assert_eq!(r.len(), 1);
    assert_eq!(r[0].id, "c");
    // "b" matches the id of b (and "Chores" body has none)
    let r = search_text(&nf, &vec!["b".to_string()]);
    assert!(r.iter().any(|n| n.id == "b"));
}

#[test]
fn search_text_is_case_sensitive() {
    let nf = sample();
    let r = search_text(&nf, &vec!["groceries".to_string()]);
    assert!(r.is_empty());
    let r = search_text(&nf, &vec!["Groceries".to_string()]);
    assert_eq!(r.len(), 1);
}

#[test]
fn search_text_keeps_notefile_order() {
    let nf = sample();
    let r = search_text(&nf, &vec!["Ideas".to_string(), "milk".to_string()]);
    let ids: Vec<&str> = r.iter().map(|n| n.id.as_str()).collect();
    // order of the notefile, not of the terms
    assert_eq!(ids, vec!["a", "b", "c"]);
}

#[test]
fn search_tags_needs_every_tag() {
    let nf = sample();
    let r = search_tags(&nf, &vec!["food".to_string()]);
    let ids: Vec<&str> = r.iter().map(|n| n.id.as_str()).collect();
    assert_eq!(ids, vec!["a", "b"]);
    let r = search_tags(&nf, &vec!["food".to_string(), "home".to_string()]);
    let ids: Vec<&str> = r.iter().map(|n| n.id.as_str()).collect();
    assert_eq!(ids, vec!["b"]);
    let r = search_tags(&nf, &vec!["food".to_string(), "work".to_string()]);
    assert!(r.is_empty());
}

#[test]
fn search_tags_with_empty_query_matches_all() {
    let nf = sample();
    let r = search_tags(&nf, &vec![]);
    assert_eq!(r.len(), 3);
}

#[test]
fn highlight_concatenates_back_to_text() {
    let text = "Hello World, hello again";
    let spans = highlight(text, "hello");
    let joined: String = spans.iter().map(|s| s.text.as_str()).collect::<Vec<_>>().concat();
    assert_eq!(joined, text);
    assert_eq!(spans.iter().filter(|s| s.matched).count(), 2);
}

#[test]
fn highlight_is_case_insensitive_and_leftmost() {
    let spans = highlight("aBCd", "bc");
    assert_eq!(spans.len(), 3);
    assert!(!spans[0].matched);
    assert_eq!(spans[0].text, "a");
    assert!(spans[1].matched);
    assert_eq!(spans[1].text, "BC");
    assert!(!spans[2].matched);
    assert_eq!(spans[2].text, "d");
}

#[test]
fn highlight_with_empty_term_is_one_plain_span() {
    let spans = highlight("some text", "");
    assert_eq!(spans.len(), 1);
    assert!(!spans[0].matched);
    assert_eq!(spans[0].text, "some text");
}

#[test]
fn highlight_without_match_is_one_plain_span() {
    let spans = highlight("some text", "zzz");
    assert_eq!(spans.len(), 1);
    assert!(!spans[0].matched);
    assert_eq!(spans[0].text, "some text");
}

#[test]
fn highlight_of_adjacent_matches() {
    let spans = highlight("abab", "ab");
    let joined: String = spans.iter().map(|s| s.text.as_str()).collect::<Vec<_>>().concat();
    assert_eq!(joined, "abab");
    assert_eq!(spans.iter().filter(|s| s.matched).count(), 2);
}
