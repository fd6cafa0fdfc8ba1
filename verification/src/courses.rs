//! Course listings as the remote source reports them.
use vstd::prelude::*;

verus! {

/// The list of courses a user is enrolled in.
pub struct Courses(pub Vec<Course>);

/// One course of the listing.
pub struct Course {
    pub id: i64,
    pub shortname: Option<String>,
    pub summary: Option<String>,
}

impl Courses {
    /// The listed courses.
    pub fn list(&self) -> (r: &Vec<Course>)
        ensures
            r@ == self.0@,
    {
        &self.0
    }
}

} // verus!
