use moodl_rs::course::retrieve_course_structure;
use moodl_rs::course_section::{insert_sections, Content, Module, Section};
use moodl_rs::downloader::{get_course_id, update_file_paths_in_db};
use moodl_rs::pages::{insert_pages, File, Page};
use moodl_rs::store::Store;

fn section_one() -> Section {
    Section {
        id: 1,
        name: "Week 1".to_string(),
        summary: String::new(),
        courseid: None,
        timemodified: Some(100),
        modules: vec![Module {
            id: 10,
            name: "Intro".to_string(),
            instance: None,
            contextid: None,
            description: None,
            contents: Some(vec![Content {
                content_type: "file".to_string(),
                filename: Some("slides.pdf".to_string()),
                fileurl: Some("http://x/slides.pdf".to_string()),
                timemodified: Some(50),
                module_id: None,
            }]),
            timemodified: Some(60),
            section_id: None,
        }],
    }
}

fn page_one(content: &str) -> Page {
    Page {
        id: 7,
        coursemodule: 20,
        course: 1,
        name: Some("About".to_string()),
        intro: Some("intro".to_string()),
        introfiles: vec![File {
            filename: Some("a.txt".to_string()),
            filepath: None,
            fileurl: Some("http://x/a.txt".to_string()),
            timemodified: None,
            page_id: None,
        }],
        content: Some(content.to_string()),
        contentfiles: vec![],
        revision: 1,
        timemodified: Some(70),
    }
}

#[test]
fn first_sync_creates_rows() {
    let mut store = Store::new();
    let sections = vec![section_one()];
    insert_sections(&mut store, &sections, 1, 1000).unwrap();
    assert_eq!(store.sections.len(), 1);
    assert_eq!(store.modules.len(), 1);
    assert_eq!(store.contents.len(), 1);
    assert_eq!(store.sections[0].sectionid, 1);
    assert_eq!(store.sections[0].courseid, 1);
    assert_eq!(store.sections[0].lastfetched, 1000);
    assert_eq!(store.modules[0].section_id, 1);
    assert_eq!(store.contents[0].module_id, 10);
    assert_eq!(store.contents[0].filename, "slides.pdf");
}

#[test]
fn second_sync_is_idempotent() {
    let mut store = Store::new();
    let sections = vec![section_one()];
    insert_sections(&mut store, &sections, 1, 1000).unwrap();
    insert_sections(&mut store, &sections, 1, 2000).unwrap();
    assert_eq!(store.sections.len(), 1);
    assert_eq!(store.modules.len(), 1);
    assert_eq!(store.contents.len(), 1);
    // only lastfetched advanced
    assert_eq!(store.sections[0].lastfetched, 2000);
    assert_eq!(store.modules[0].lastfetched, 2000);
    assert_eq!(store.contents[0].lastfetched, 2000);
    assert_eq!(store.sections[0].name, "Week 1");
    assert_eq!(store.modules[0].name, "Intro");
}

#[test]
fn malformed_content_aborts_without_writes() {
    let mut store = Store::new();
    let mut bad = section_one();
    bad.modules[0].contents.as_mut().unwrap()[0].fileurl = None;
    let sections = vec![bad];
    let r = insert_sections(&mut store, &sections, 1, 1000);
    assert!(r.is_err());
    assert_eq!(store.sections.len(), 0);
    assert_eq!(store.modules.len(), 0);
    assert_eq!(store.contents.len(), 0);
    let msg = r.err().map(|e| e.message().clone()).unwrap();
    assert!(msg.contains("filename"));
}

#[test]
fn change_audit_appends_exactly_once() {
    let mut store = Store::new();
    let pages_a = vec![page_one("A")];
    insert_pages(&mut store, &pages_a, 1000).unwrap();
    assert_eq!(store.pages.len(), 1);
    assert_eq!(store.files.len(), 1);
    // first sight: no history
    assert_eq!(store.history.len(), 0);
    // a real change: exactly one entry, holding the new content
    let pages_b = vec![page_one("B")];
    insert_pages(&mut store, &pages_b, 2000).unwrap();
    assert_eq!(store.pages.len(), 1);
    assert_eq!(store.history.len(), 1);
    assert_eq!(store.history[0].content.as_deref(), Some("B"));
    assert_eq!(store.history[0].timestamp, 2000);
    assert_eq!(store.history[0].cmid, 20);
    assert_eq!(store.pages[0].content.as_deref(), Some("B"));
    // the same content again: nothing appended
    insert_pages(&mut store, &pages_b, 3000).unwrap();
    assert_eq!(store.history.len(), 1);
    assert_eq!(store.pages[0].lastfetched, 3000);
}

#[test]
fn unchanged_page_refreshes_only_lastfetched() {
    let mut store = Store::new();
    let pages = vec![page_one("A")];
    insert_pages(&mut store, &pages, 1000).unwrap();
    insert_pages(&mut store, &pages, 2000).unwrap();
    assert_eq!(store.pages.len(), 1);
    assert_eq!(store.files.len(), 1);
    assert_eq!(store.history.len(), 0);
    assert_eq!(store.pages[0].lastfetched, 2000);
    assert_eq!(store.pages[0].content.as_deref(), Some("A"));
}

#[test]
fn parents_resolve_after_sync() {
    let mut store = Store::new();
    insert_sections(&mut store, &vec![section_one()], 1, 1000).unwrap();
    insert_pages(&mut store, &vec![page_one("A")], 1000).unwrap();
    for c in &store.contents {
        assert!(store.modules.iter().any(|m| m.moduleid == c.module_id));
    }
    for m in &store.modules {
        assert!(store.sections.iter().any(|s| s.sectionid == m.section_id));
    }
    for f in &store.files {
        assert!(store.pages.iter().any(|p| p.pageid == f.page_id));
    }
    for h in &store.history {
        assert!(store.pages.iter().any(|p| p.coursemodule == h.cmid));
    }
}

#[test]
fn staged_retrieval_rebuilds_the_tree() {
    let mut store = Store::new();
    insert_sections(&mut store, &vec![section_one()], 1, 1000).unwrap();
    let tree = retrieve_course_structure(&store, 1);
    assert_eq!(tree.len(), 1);
    assert_eq!(tree[0].id, 1);
    assert_eq!(tree[0].name, "Week 1");
    assert_eq!(tree[0].modules.len(), 1);
    let m = &tree[0].modules[0];
    assert_eq!(m.id, 10);
    assert_eq!(m.name, "Intro");
    let files = m.contents.as_ref().unwrap();
    assert_eq!(files.len(), 1);
    assert_eq!(files[0].filename.as_deref(), Some("slides.pdf"));
    assert_eq!(files[0].fileurl.as_deref(), Some("http://x/slides.pdf"));
    assert_eq!(files[0].filepath, None);
    // an unknown course yields an empty tree, not an error
    let empty = retrieve_course_structure(&store, 99);
    assert_eq!(empty.len(), 0);
}

#[test]
fn combine_overwrites_description_with_page_content() {
    let mut store = Store::new();
    let mut section = section_one();
    section.modules[0].id = 20; // shares the page's course-module id
    insert_sections(&mut store, &vec![section], 1, 1000).unwrap();
    insert_pages(&mut store, &vec![page_one("<p>Body</p>")], 1000).unwrap();
    let mut tree = retrieve_course_structure(&store, 1);
    let pages = moodl_rs::course::retrieve_pages(&store);
    tree[0].combine(&pages);
    let m = &tree[0].modules[0];
    assert_eq!(m.description.as_deref(), Some("<p>Body</p>"));
    let files = m.contents.as_ref().unwrap();
    assert_eq!(files.len(), 1);
    assert_eq!(files[0].filename.as_deref(), Some("a.txt"));
    // merging again with the same pages leaves the module as it is
    let before_desc = m.description.clone();
    let before_files = files.len();
    tree[0].combine(&pages);
    let m2 = &tree[0].modules[0];
    assert_eq!(m2.description, before_desc);
    assert_eq!(m2.contents.as_ref().unwrap().len(), before_files);
}

#[test]
fn download_paths_are_kept_across_syncs() {
    let mut store = Store::new();
    insert_pages(&mut store, &vec![page_one("A")], 1000).unwrap();
    update_file_paths_in_db(&mut store, &"a.txt".to_string(), &"/tmp/a.txt".to_string());
    assert_eq!(store.files[0].localpath.as_deref(), Some("/tmp/a.txt"));
    // a later sync refreshes the row but keeps the recorded path
    insert_pages(&mut store, &vec![page_one("A")], 2000).unwrap();
    assert_eq!(store.files.len(), 1);
    assert_eq!(store.files[0].localpath.as_deref(), Some("/tmp/a.txt"));
    assert_eq!(store.files[0].lastfetched, 2000);
}

#[test]
fn course_is_found_by_content_filename() {
    let mut store = Store::new();
    insert_sections(&mut store, &vec![section_one()], 7, 1000).unwrap();
    assert_eq!(get_course_id(&store, &"slides.pdf".to_string()), Some(7));
    assert_eq!(get_course_id(&store, &"missing.pdf".to_string()), None);
}
