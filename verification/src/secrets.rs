//! The secrets file's view of a tracked course.
use vstd::prelude::*;

verus! {

/// One tracked course with its download location.
pub struct CourseConfig {
    pub id: i64,
    pub shortname: Option<String>,
    pub filepath: Option<String>,
}

} // verus!
