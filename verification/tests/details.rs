use moodl_rs::course_details::{parse_course_details, GetFileData};
use moodl_rs::course_grades::{process_grades, sanitize_html, ApiResponse, ItemDetails, Table, TableData};
use moodl_rs::course_section::{insert_sections, Content, Module, Section};
use moodl_rs::pages::{insert_pages, File, Page};
use moodl_rs::process_result::ProcessResult;
use moodl_rs::prompt::{select_command, UserCommand};
use moodl_rs::store::Store;

fn sample_store() -> Store {
    let mut store = Store::new();
    let sections = vec![Section {
        id: 1,
        name: "Week 1".to_string(),
        summary: "about".to_string(),
        courseid: None,
        timemodified: None,
        modules: vec![
            Module {
                id: 10,
                name: "Files".to_string(),
                instance: None,
                contextid: None,
                description: Some("d".to_string()),
                contents: Some(vec![
                    Content {
                        content_type: "file".to_string(),
                        filename: Some("a.pdf".to_string()),
                        fileurl: Some("http://x/a.pdf".to_string()),
                        timemodified: None,
                        module_id: None,
                    },
                    Content {
                        content_type: "file".to_string(),
                        filename: Some("a.pdf".to_string()),
                        fileurl: Some("http://y/a.pdf".to_string()),
                        timemodified: None,
                        module_id: None,
                    },
                ]),
                timemodified: None,
                section_id: None,
            },
            Module {
                id: 20,
                name: "Reading".to_string(),
                instance: None,
                contextid: None,
                description: None,
                contents: None,
                timemodified: None,
                section_id: None,
            },
        ],
    }];
    insert_sections(&mut store, &sections, 1, 1000).unwrap();
    let pages = vec![Page {
        id: 7,
        coursemodule: 20,
        course: 1,
        name: Some("About".to_string()),
        intro: None,
        introfiles: vec![File {
            filename: Some("notes.txt".to_string()),
            filepath: None,
            fileurl: Some("http://x/notes.txt".to_string()),
            timemodified: None,
            page_id: None,
        }],
        content: Some("body".to_string()),
        contentfiles: vec![File {
            filename: Some("extra.txt".to_string()),
            filepath: None,
            fileurl: Some("http://x/extra.txt".to_string()),
            timemodified: None,
            page_id: None,
        }],
        revision: 1,
        timemodified: None,
    }];
    insert_pages(&mut store, &pages, 1000).unwrap();
    store
}

#[test]
fn grouping_collects_content_and_pages_independently() {
    let store = sample_store();
    let t = parse_course_details(&store, 1).unwrap();
    assert_eq!(t.courseid, Some(1));
    assert_eq!(t.sections.len(), 1);
    let s = &t.sections[0];
    assert_eq!(s.section_name.as_deref(), Some("Week 1"));
    assert_eq!(s.modules.len(), 2);
    // a module with two same-named content rows keeps both: the URLs differ
    let m0 = &s.modules[0];
    assert_eq!(m0.module_name.as_deref(), Some("Files"));
    assert_eq!(m0.content.len(), 2);
    assert_eq!(m0.pages.len(), 0);
    assert_eq!(m0.content[0].content_fileurl.as_deref(), Some("http://x/a.pdf"));
    assert_eq!(m0.content[1].content_fileurl.as_deref(), Some("http://y/a.pdf"));
    // the page module groups the page with both of its attachments
    let m1 = &s.modules[1];
    assert_eq!(m1.content.len(), 0);
    assert_eq!(m1.pages.len(), 1);
    assert_eq!(m1.pages[0].page_content.as_deref(), Some("body"));
    assert_eq!(m1.pages[0].files.len(), 2);
}

#[test]
fn leaf_entries_match_the_stored_rows() {
    let store = sample_store();
    let t = parse_course_details(&store, 1).unwrap();
    let mut leaves = 0;
    for s in &t.sections {
        for m in &s.modules {
            leaves += m.content.len();
            for p in &m.pages {
                leaves += p.files.len();
            }
        }
    }
    assert_eq!(leaves, store.contents.len() + store.files.len());
}

#[test]
fn unsynced_course_is_reported_not_guessed() {
    let store = sample_store();
    let r = parse_course_details(&store, 99);
    assert!(r.is_err());
    let msg = r.err().map(|e| e.message().clone()).unwrap();
    assert!(msg.contains("fetch"));
}

#[test]
fn file_data_pairs_come_from_both_leaf_kinds() {
    let store = sample_store();
    let t = parse_course_details(&store, 1).unwrap();
    let c = &t.sections[0].modules[0].content[0];
    assert_eq!(
        c.get_file_data(),
        Some(("a.pdf".to_string(), "http://x/a.pdf".to_string()))
    );
    let f = &t.sections[0].modules[1].pages[0].files[0];
    assert_eq!(
        f.get_file_data(),
        Some(("notes.txt".to_string(), "http://x/notes.txt".to_string()))
    );
}

#[test]
fn sanitize_reduces_cells_to_plain_text() {
    assert_eq!(sanitize_html("<b> Quiz 1 </b>"), "Quiz 1");
    assert_eq!(sanitize_html("plain"), "plain");
    assert_eq!(sanitize_html("<a href=\"x\">go</a> now "), "go now");
}

#[test]
fn grade_report_cells_are_sanitized() {
    let cell = |text: &str| ItemDetails {
        class: "c".to_string(),
        colspan: None,
        content: Some(text.to_string()),
        id: None,
        rowspan: None,
        headers: None,
    };
    let response = ApiResponse {
        tables: vec![Table {
            courseid: 1,
            userid: 2,
            userfullname: "U".to_string(),
            maxdepth: 1,
            tabledata: vec![TableData {
                itemname: Some(cell("<i> Quiz </i>")),
                leader: None,
                weight: None,
                grade: Some(cell("<b>9</b>")),
                range: Some(cell("<span>0-10</span>")),
                feedback: None,
                contributiontocoursetotal: None,
                parentcategories: Some(vec![1, 2]),
            }],
        }],
    };
    match process_grades(response) {
        ProcessResult::Grades(tables) => {
            let row = &tables[0].tabledata[0];
            assert_eq!(
                row.itemname.as_ref().unwrap().content.as_deref(),
                Some("Quiz")
            );
            assert_eq!(row.grade.as_ref().unwrap().content.as_deref(), Some("9"));
            // cells the report does not display stay as they came
            assert_eq!(
                row.range.as_ref().unwrap().content.as_deref(),
                Some("<span>0-10</span>")
            );
            assert_eq!(row.parentcategories.as_deref(), Some(&[1, 2][..]));
        }
        _ => panic!("expected grades"),
    }
}

#[test]
fn answers_pick_commands() {
    assert!(matches!(select_command("i"), UserCommand::Init));
    assert!(matches!(select_command("f"), UserCommand::Fetch));
    assert!(matches!(select_command("D"), UserCommand::Download));
    assert!(matches!(select_command("p"), UserCommand::Parse));
    assert!(matches!(select_command("d"), UserCommand::Default));
    assert!(matches!(select_command("anything"), UserCommand::Default));
}

#[test]
fn flat_join_rows_carry_one_leaf_each() {
    let store = sample_store();
    let t = parse_course_details(&store, 1).unwrap();
    let rows = moodl_rs::course_details::get_course_details(&t);
    // one row per leaf: two content rows and two file rows
    assert_eq!(rows.len(), 4);
    assert_eq!(rows[0].section_name.as_deref(), Some("Week 1"));
    assert_eq!(rows[0].module_name.as_deref(), Some("Files"));
    assert_eq!(rows[0].content_fileurl.as_deref(), Some("http://x/a.pdf"));
    assert_eq!(rows[0].file_filename, None);
    assert_eq!(rows[1].content_fileurl.as_deref(), Some("http://y/a.pdf"));
    // the page's rows repeat the page columns, one attachment each
    assert_eq!(rows[2].module_name.as_deref(), Some("Reading"));
    assert_eq!(rows[2].page_content.as_deref(), Some("body"));
    assert_eq!(rows[2].file_filename.as_deref(), Some("notes.txt"));
    assert_eq!(rows[3].file_filename.as_deref(), Some("extra.txt"));
    assert_eq!(rows[3].content_filename, None);
}

#[test]
fn config_lookup_finds_the_tracked_course() {
    let config = moodl_rs::configs::Configs {
        api: moodl_rs::configs::ApiConfig {
            base_url: "moodle.example".to_string(),
            token: "t".to_string(),
            userid: 3,
        },
        courses: vec![
            moodl_rs::configs::CourseConfig { id: 1, shortname: Some("ENSE 400".to_string()) },
            moodl_rs::configs::CourseConfig { id: 2, shortname: None },
        ],
    };
    assert_eq!(config.get_course_name(1).map(|s| s.as_str()), Some("ENSE 400"));
    assert_eq!(config.get_course_name(2), None);
    assert_eq!(config.get_course_name(9), None);
}

#[test]
fn course_listing_is_readable() {
    let listing = moodl_rs::courses::Courses(vec![moodl_rs::courses::Course {
        id: 4,
        shortname: Some("CS 101".to_string()),
        summary: None,
    }]);
    assert_eq!(listing.list().len(), 1);
    assert_eq!(listing.list()[0].id, 4);
}
