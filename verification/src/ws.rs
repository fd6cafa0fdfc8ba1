//! The shapes of the remote service's responses.
use vstd::prelude::*;

use crate::assignments::Assignments;
use crate::course_section::Section;
use crate::courses::Course;
use crate::grades::CourseGrades;
use crate::pages::Pages;
use crate::user::SiteInfo;

verus! {

/// An error the remote service reported.
pub struct ApiError {
    pub exception: String,
    pub errorcode: String,
    pub message: String,
    pub debuginfo: Option<String>,
}

/// A user's grades across courses.
pub struct UserGradesResponse {
    pub usergrades: Vec<CourseGrades>,
}

/// One parsed remote response.
pub enum ApiResponse {
    Exception(ApiError),
    SiteInfo(SiteInfo),
    Sections(Vec<Section>),
    Course(Vec<Course>),
    UserGrades(UserGradesResponse),
    Pages(Pages),
    Assignments(Assignments),
}

} // verus!
