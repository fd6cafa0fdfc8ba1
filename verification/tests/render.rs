use moodl_rs::course::{CourseFile, CourseModule, CourseSection};
use moodl_rs::course_section::{insert_sections, Content, Module, Section};
use moodl_rs::grades::{parse_grades, GradeItem};
use moodl_rs::parser::{
    clean_html, decrease_header_level, is_variation_of, parse_course, parse_html, remove_emojis,
    remove_line_breaks,
};
use moodl_rs::store::Store;

fn module(name: &str, description: Option<&str>, files: Option<Vec<CourseFile>>) -> CourseModule {
    CourseModule {
        id: 10,
        name: name.to_string(),
        instance: None,
        contextid: None,
        description: description.map(|d| d.to_string()),
        contents: files,
        section_id: Some(1),
    }
}

fn grade(name: Option<&str>, raw: Option<i64>, when: Option<i64>) -> GradeItem {
    GradeItem {
        id: 1,
        itemname: name.map(|n| n.to_string()),
        itemmodule: None,
        iteminstance: 0,
        itemnumber: None,
        idnumber: None,
        categoryid: None,
        cmid: None,
        graderaw: raw,
        gradedatesubmitted: None,
        gradedategraded: when,
        grademin: 0,
        grademax: 100,
        feedback: None,
        courseid: None,
    }
}

#[test]
fn scenario_sync_twice_and_render() {
    let mut store = Store::new();
    let sections = vec![Section {
        id: 1,
        name: "Week 1".to_string(),
        summary: String::new(),
        courseid: None,
        timemodified: None,
        modules: vec![Module {
            id: 10,
            name: "Intro".to_string(),
            instance: None,
            contextid: None,
            description: None,
            contents: Some(vec![Content {
                content_type: "file".to_string(),
                filename: Some("slides.pdf".to_string()),
                fileurl: Some("http://x/slides.pdf".to_string()),
                timemodified: None,
                module_id: None,
            }]),
            timemodified: None,
            section_id: None,
        }],
    }];
    insert_sections(&mut store, &sections, 1, 1000).unwrap();
    insert_sections(&mut store, &sections, 1, 2000).unwrap();
    assert_eq!(
        store.sections.len() + store.modules.len() + store.contents.len(),
        3
    );
    let tree = moodl_rs::course::retrieve_course_structure(&store, 1);
    let md = parse_course(tree);
    assert_eq!(md, "# Week 1\n## Intro\n\n[slides.pdf](http://x/slides.pdf)\n");
}

#[test]
fn rendering_is_deterministic() {
    let make = || {
        vec![CourseSection {
            id: 1,
            name: "S".to_string(),
            summary: "<p>sum <b>x</b></p>".to_string(),
            courseid: Some(1),
            modules: vec![module("M", Some("<h2>head</h2>text"), None)],
        }]
    };
    let once = parse_course(make());
    let twice = parse_course(make());
    assert_eq!(once, twice);
}

#[test]
fn heading_left_out_when_description_carries_the_name() {
    let tree = vec![CourseSection {
        id: 1,
        name: "S".to_string(),
        summary: String::new(),
        courseid: Some(1),
        modules: vec![module("Syllabus", Some("Syllabus"), None)],
    }];
    let md = parse_course(tree);
    // the name appears once, from the description, and not as a heading
    assert_eq!(md, "# S\nSyllabus\n");
    assert_eq!(md.matches("Syllabus").count(), 1);
}

#[test]
fn heading_printed_when_description_differs() {
    let tree = vec![CourseSection {
        id: 1,
        name: "S".to_string(),
        summary: String::new(),
        courseid: Some(1),
        modules: vec![
            module("Alpha", Some("something else"), None),
            module("Beta", None, None),
        ],
    }];
    let md = parse_course(tree);
    // first module gets a level-2 heading, later ones level 3
    assert_eq!(md, "# S\n## Alpha\nsomething else\n### Beta\n");
}

#[test]
fn local_path_wins_over_remote_url() {
    let files = vec![
        CourseFile {
            filename: Some("a.pdf".to_string()),
            filepath: Some("/data/a.pdf".to_string()),
            fileurl: Some("http://x/a.pdf".to_string()),
            timemodified: None,
            module_id: Some(10),
        },
        CourseFile {
            filename: Some("b.pdf".to_string()),
            filepath: None,
            fileurl: Some("http://x/b.pdf".to_string()),
            timemodified: None,
            module_id: Some(10),
        },
    ];
    let tree = vec![CourseSection {
        id: 1,
        name: "S".to_string(),
        summary: String::new(),
        courseid: Some(1),
        modules: vec![module("M", None, Some(files))],
    }];
    let md = parse_course(tree);
    assert_eq!(md, "# S\n## M\n\n[a.pdf](/data/a.pdf)\n\n[b.pdf](http://x/b.pdf)\n");
}

#[test]
fn cleanup_strips_attributes_and_empty_pairs() {
    let html = "<p dir=\"ltr\"></p><div><h2>T</h2>  a&nbsp;b</div>".to_string();
    let cleaned = clean_html(&html);
    // the attribute goes, the empty pair goes, the div goes, whitespace
    // collapses, and the header drops one level
    assert_eq!(cleaned, "<h1>T</h1> ab");
}

#[test]
fn cleanup_reaches_nested_empty_pairs() {
    let html = "<p><b></b></p>x".to_string();
    assert_eq!(clean_html(&html), "x");
}

#[test]
fn markdown_conversion_handles_links_and_emphasis() {
    let md = parse_html("<h1>T</h1><p>a <b>b</b></p><a href=\"u\">t</a>");
    assert_eq!(md, "\n# T\na **b**\n[t](u)");
}

#[test]
fn lists_become_bullets() {
    let md = parse_html("<ul><li>one</li><li>two</li></ul>");
    assert_eq!(md, "* one\n* two\n");
}

#[test]
fn header_levels_drop_by_one() {
    assert_eq!(decrease_header_level("<h3>x</h3><h1>y</h1>"), "<h2>x</h2><h1>y</h1>");
}

#[test]
fn whitespace_runs_collapse() {
    assert_eq!(remove_line_breaks("a\n\n  b\tc"), "a b c");
}

#[test]
fn emojis_are_stripped_from_names() {
    assert_eq!(remove_emojis("week \u{1F600} one"), "week  one");
    assert_eq!(remove_emojis("plain"), "plain");
}

#[test]
fn variation_ignores_ellipses_and_bold() {
    assert!(is_variation_of("Syllabus", "Syllabus"));
    assert!(is_variation_of("Syllabus...", "**Syllabus** and more"));
    assert!(!is_variation_of("Syllabus", "Other"));
    assert!(!is_variation_of("", ""));
}

#[test]
fn grades_table_prints_exact_values() {
    let grades = vec![
        grade(Some("Quiz 1"), Some(87), Some(0)),
        grade(Some("   "), Some(5), None),
        grade(None, Some(5), None),
        grade(Some("Final"), None, None),
    ];
    let md = parse_grades(grades);
    let expected = "# Grades: \n\n\
        | Item Name | Graded On           | Range        | Grade |\n\
        |-----------|---------------------|--------------|-------|\n\
        | Quiz 1    | 1970-01-01 00:00:00 | 0 - 100      | 87    |\n\
        | Final     | N/A                 | 0 - 100      | N/A   |\n";
    assert_eq!(md, expected);
}

#[test]
fn grades_name_column_widens_to_the_longest_name() {
    let grades = vec![grade(Some("A very long item name"), Some(1), None)];
    let md = parse_grades(grades);
    assert!(md.contains("| A very long item name | "));
    assert!(md.contains("|-----------------------|"));
}

#[test]
fn grades_print_negative_bounds() {
    let mut g = grade(Some("Bonus"), Some(-3), None);
    g.grademin = -5;
    g.grademax = 5;
    let md = parse_grades(vec![g]);
    assert!(md.contains("| -5 - 5       | -3    |"));
}
