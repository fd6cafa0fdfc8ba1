//! Assignment data as the remote source reports it.
use vstd::prelude::*;

verus! {

/// The assignments of every queried course.
pub struct Assignments {
    pub courses: Vec<Course>,
}

/// One course's assignments.
pub struct Course {
    pub id: i64,
    pub timemodified: i64,
    pub assignments: Vec<Assignment>,
}

/// One assignment.
pub struct Assignment {
    pub id: i64,
    pub cmid: i64,
    pub course: i64,
    pub name: String,
    pub duedate: i64,
    pub allowsubmissionsfromdate: i64,
    pub timemodified: i64,
    pub cutoffdate: i64,
    pub intro: Option<String>,
    pub courseid: Option<i64>,
}

} // verus!
