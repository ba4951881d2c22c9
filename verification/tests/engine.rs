use lychee_core::models::{CreateNoteRequest, StoreError, UpdateNoteRequest};
use lychee_core::store::Store;
use lychee_core::text::{capitalize_words, sanitize_filename};

fn req(content: &str, tags: &[&str]) -> CreateNoteRequest {
    CreateNoteRequest {
        content: content.to_string(),
        tags: tags.iter().map(|t| t.to_string()).collect(),
    }
}

fn upd(id: i64, content: &str, tags: &[&str]) -> UpdateNoteRequest {
    UpdateNoteRequest {
        id,
        content: content.to_string(),
        tags: tags.iter().map(|t| t.to_string()).collect(),
    }
}

#[test]
fn create_then_read_back() {
    let mut s = Store::new();
    let id = s.create_note(req("hello", &["work", "urgent"]), "t1".to_string());
    let got = s.get_note_by_id(id).expect("note should exist");
    assert_eq!(got.id, id);
    assert_eq!(got.content, "hello");
    assert_eq!(got.tags, vec!["urgent".to_string(), "work".to_string()]);
    assert_eq!(got.created_at, Some("t1".to_string()));
    assert_eq!(got.updated_at, Some("t1".to_string()));
}

#[test]
fn missing_note_reads_none() {
    let s = Store::new();
    assert!(s.get_note_by_id(42).is_none());
}

#[test]
fn duplicate_tag_names_collapse() {
    let mut s = Store::new();
    let id = s.create_note(req("n", &["a", "a", "a"]), "t1".to_string());
    assert_eq!(s.get_tags_for_note(id), vec!["a".to_string()]);
    assert_eq!(s.get_all_tags().len(), 1);
}

#[test]
fn resolve_same_name_twice_makes_one_row() {
    let mut s = Store::new();
    let t1 = s.resolve_tag(&"work".to_string());
    let _n = s.create_note(req("n", &["work"]), "t1".to_string());
    let t2 = s.resolve_tag(&"work".to_string());
    assert_eq!(t1, t2);
    let tags = s.get_all_tags();
    assert_eq!(tags.len(), 1);
    assert_eq!(tags[0].name, "work");
}

#[test]
fn tags_listed_alphabetically() {
    let mut s = Store::new();
    let id = s.create_note(req("n", &["zeta", "alpha", "mid"]), "t1".to_string());
    assert_eq!(
        s.get_tags_for_note(id),
        vec!["alpha".to_string(), "mid".to_string(), "zeta".to_string()]
    );
}

#[test]
fn get_all_notes_newest_first() {
    let mut s = Store::new();
    let a = s.create_note(req("first", &[]), "t1".to_string());
    let b = s.create_note(req("second", &[]), "t2".to_string());
    let c = s.create_note(req("third", &[]), "t3".to_string());
    let all = s.get_all_notes();
    let ids: Vec<i64> = all.iter().map(|e| e.id).collect();
    assert_eq!(ids, vec![c, b, a]);
}

#[test]
fn update_replaces_content_and_tags() {
    let mut s = Store::new();
    let id = s.create_note(req("old", &["work", "urgent"]), "t1".to_string());
    s.update_note(upd(id, "new", &["home"]), "t2".to_string());
    let got = s.get_note_by_id(id).expect("note should exist");
    assert_eq!(got.content, "new");
    assert_eq!(got.tags, vec!["home".to_string()]);
    assert_eq!(got.created_at, Some("t1".to_string()));
    assert_eq!(got.updated_at, Some("t2".to_string()));
}

#[test]
fn update_to_empty_tags_collects_orphans() {
    let mut s = Store::new();
    let id = s.create_note(req("n", &["only-mine", "shared"]), "t1".to_string());
    let _other = s.create_note(req("m", &["shared"]), "t2".to_string());
    s.update_note(upd(id, "n", &[]), "t3".to_string());
    assert!(s.get_tags_for_note(id).is_empty());
    let names: Vec<String> = s.get_all_tags().into_iter().map(|t| t.name).collect();
    assert_eq!(names, vec!["shared".to_string()]);
}

#[test]
fn update_missing_note_is_noop() {
    let mut s = Store::new();
    let id = s.create_note(req("n", &["a"]), "t1".to_string());
    s.update_note(upd(id + 7, "x", &["b"]), "t2".to_string());
    assert_eq!(s.get_all_notes().len(), 1);
    assert_eq!(s.get_all_tags().len(), 1);
    assert_eq!(s.get_tags_for_note(id), vec!["a".to_string()]);
}

#[test]
fn delete_note_collects_exclusive_tags() {
    let mut s = Store::new();
    let n1 = s.create_note(req("n1", &["work", "urgent"]), "t1".to_string());
    let _n2 = s.create_note(req("n2", &["work"]), "t2".to_string());
    s.delete_note(n1);
    assert!(s.get_note_by_id(n1).is_none());
    let names: Vec<String> = s.get_all_tags().into_iter().map(|t| t.name).collect();
    assert_eq!(names, vec!["work".to_string()]);
}

#[test]
fn delete_missing_note_is_noop() {
    let mut s = Store::new();
    let id = s.create_note(req("n", &["a"]), "t1".to_string());
    s.delete_note(id + 5);
    assert_eq!(s.get_all_notes().len(), 1);
    assert_eq!(s.get_tags_for_note(id), vec!["a".to_string()]);
}

#[test]
fn search_empty_request_lists_all() {
    let mut s = Store::new();
    let a = s.create_note(req("n1", &["work"]), "t1".to_string());
    let b = s.create_note(req("n2", &[]), "t2".to_string());
    let empty: Vec<String> = Vec::new();
    let found = s.search_notes_by_tags(&empty);
    let all = s.get_all_notes();
    let found_ids: Vec<i64> = found.iter().map(|e| e.id).collect();
    let all_ids: Vec<i64> = all.iter().map(|e| e.id).collect();
    assert_eq!(found_ids, all_ids);
    assert_eq!(found_ids, vec![b, a]);
}

#[test]
fn search_requires_every_tag() {
    let mut s = Store::new();
    let with_ab = s.create_note(req("ab", &["a", "b"]), "t1".to_string());
    let _with_ac = s.create_note(req("ac", &["a", "c"]), "t2".to_string());
    let with_abc = s.create_note(req("abc", &["a", "b", "c"]), "t3".to_string());
    let query = vec!["a".to_string(), "b".to_string()];
    let found = s.search_notes_by_tags(&query);
    let ids: Vec<i64> = found.iter().map(|e| e.id).collect();
    assert_eq!(ids, vec![with_abc, with_ab]);
}

#[test]
fn search_unknown_tag_finds_nothing() {
    let mut s = Store::new();
    let _n = s.create_note(req("n", &["a"]), "t1".to_string());
    let query = vec!["a".to_string(), "ghost".to_string()];
    assert!(s.search_notes_by_tags(&query).is_empty());
}

#[test]
fn delete_tag_unlinks_and_removes() {
    let mut s = Store::new();
    let n1 = s.create_note(req("n1", &["work", "urgent"]), "t1".to_string());
    let n2 = s.create_note(req("n2", &["work"]), "t2".to_string());
    let query = vec!["work".to_string(), "urgent".to_string()];
    let found = s.search_notes_by_tags(&query);
    let ids: Vec<i64> = found.iter().map(|e| e.id).collect();
    assert_eq!(ids, vec![n1]);

    let urgent_id = s
        .get_all_tags()
        .into_iter()
        .find(|t| t.name == "urgent")
        .expect("urgent exists")
        .id;
    s.delete_tag(urgent_id);
    let urgent_query = vec!["urgent".to_string()];
    assert!(s.search_notes_by_tags(&urgent_query).is_empty());
    let names: Vec<String> = s.get_all_tags().into_iter().map(|t| t.name).collect();
    assert_eq!(names, vec!["work".to_string()]);
    assert_eq!(s.get_tags_for_note(n1), vec!["work".to_string()]);
    assert_eq!(s.get_tags_for_note(n2), vec!["work".to_string()]);
}

#[test]
fn rename_tag_changes_name_keeps_membership() {
    let mut s = Store::new();
    let n1 = s.create_note(req("n1", &["work", "urgent"]), "t1".to_string());
    let n2 = s.create_note(req("n2", &["work"]), "t2".to_string());
    let work_id = s
        .get_all_tags()
        .into_iter()
        .find(|t| t.name == "work")
        .expect("work exists")
        .id;
    let r = s.rename_tag(work_id, "office".to_string());
    assert!(r.is_ok());
    let t1 = s.get_tags_for_note(n1);
    assert!(t1.contains(&"office".to_string()));
    assert!(!t1.contains(&"work".to_string()));
    let work_query = vec!["work".to_string()];
    assert!(s.search_notes_by_tags(&work_query).is_empty());
    let office_query = vec!["office".to_string()];
    let found = s.search_notes_by_tags(&office_query);
    let ids: Vec<i64> = found.iter().map(|e| e.id).collect();
    assert_eq!(ids, vec![n2, n1]);
}

#[test]
fn rename_tag_rejects_collision() {
    let mut s = Store::new();
    let _n = s.create_note(req("n", &["work", "home"]), "t1".to_string());
    let work_id = s
        .get_all_tags()
        .into_iter()
        .find(|t| t.name == "work")
        .expect("work exists")
        .id;
    let r = s.rename_tag(work_id, "home".to_string());
    assert_eq!(r, Err(StoreError::DuplicateTagName));
    let names: Vec<String> = s.get_all_tags().into_iter().map(|t| t.name).collect();
    assert_eq!(names, vec!["home".to_string(), "work".to_string()]);
}

#[test]
fn rename_tag_to_own_name_is_ok() {
    let mut s = Store::new();
    let _n = s.create_note(req("n", &["work"]), "t1".to_string());
    let work_id = s.get_all_tags()[0].id;
    assert!(s.rename_tag(work_id, "work".to_string()).is_ok());
    assert_eq!(s.get_all_tags()[0].name, "work");
}

#[test]
fn rename_missing_tag_is_noop() {
    let mut s = Store::new();
    assert!(s.rename_tag(99, "x".to_string()).is_ok());
    assert!(s.get_all_tags().is_empty());
}

#[test]
fn sweep_is_idempotent() {
    let mut s = Store::new();
    let id = s.create_note(req("n", &["a", "b"]), "t1".to_string());
    s.delete_note(id);
    assert!(s.get_all_tags().is_empty());
    s.sweep();
    assert!(s.get_all_tags().is_empty());
    assert!(s.get_all_notes().is_empty());
}

#[test]
fn capitalize_words_examples() {
    assert_eq!(capitalize_words("hello-world"), "Hello World");
    assert_eq!(capitalize_words("lychee-dark"), "Lychee Dark");
    assert_eq!(capitalize_words(""), "");
    assert_eq!(capitalize_words("a--b"), "A  B");
}

#[test]
fn sanitize_filename_examples() {
    assert_eq!(sanitize_filename("My Theme?"), "my-theme");
    assert_eq!(sanitize_filename("a/b\\c:d"), "a-b-c-d");
    assert_eq!(sanitize_filename("--Safe_Name--"), "safe_name");
    assert_eq!(sanitize_filename(""), "");
}
