//! A verified synchronization and reconstruction engine for mirroring a
//! remote learning-management course into a local relational store.
//!
//! The library upserts remote entities (sections, modules, content items,
//! pages, page attachments) into normalized tables, keeps an append-only
//! audit trail of page content changes, reassembles the flat rows into a
//! nested section/module tree, and renders that tree to Markdown.
pub mod assignments;
pub mod configs;
pub mod course;
pub mod course_grades;
pub mod courses;
pub mod course_details;
pub mod course_section;
pub mod dates;
pub mod grades;
pub mod laws;
pub mod downloader;
pub mod pages;
pub mod parser;
pub mod process_result;
pub mod prompt;
pub mod response;
pub mod secrets;
pub mod store;
pub mod user;
pub mod ws;
pub mod text;

pub use store::Store;
