//! What one processing step hands back to the command loop.
use vstd::prelude::*;

use crate::course_grades::Table;
use crate::course_section::Section;
use crate::courses::Course;
use crate::pages::Page;

verus! {

/// The outcome of processing one remote response.
pub enum ProcessResult {
    Grades(Vec<Table>),
    Content(Vec<Section>),
    Pages(Vec<Page>),
    Courses(Vec<Course>),
    UserId(i64),
    Nothing,
}

} // verus!
