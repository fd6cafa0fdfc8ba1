//! The host application's configuration values that the engine reads.
use vstd::prelude::*;

use crate::store::{first_with_key, lemma_first_match_at, lemma_first_with_key_bounds};

verus! {

/// The remote endpoint's coordinates.
pub struct ApiConfig {
    pub base_url: String,
    pub token: String,
    pub userid: i64,
}

/// One tracked course.
pub struct CourseConfig {
    pub id: i64,
    pub shortname: Option<String>,
}

/// The whole configuration.
pub struct Configs {
    pub api: ApiConfig,
    pub courses: Vec<CourseConfig>,
}

/// The key of the tracked-course list.
pub open spec fn config_key() -> spec_fn(CourseConfig) -> i64 {
    |c: CourseConfig| c.id
}

impl Configs {
    /// The short name recorded for a course: the first tracked entry with
    /// that id, if it carries one.
    pub fn get_course_name(&self, courseid: i64) -> (r: Option<&String>)
        ensures
            ({
                let i = first_with_key(self.courses@, config_key(), courseid);
                match r {
                    Some(name) => i >= 0 && self.courses@[i].shortname == Some(*name),
                    None => i == -1 || self.courses@[i].shortname is None,
                }
            }),
    {
        let n = self.courses.len();
        let mut i: usize = 0;
        while i < n
            invariant
                i <= n,
                n == self.courses@.len(),
                forall|j: int| 0 <= j < i ==> #[trigger] config_key()(self.courses@[j]) != courseid,
            decreases n - i,
        {
            if self.courses[i].id == courseid {
                proof {
                    lemma_first_match_at(self.courses@, config_key(), courseid, i as int);
                }
                return match &self.courses[i].shortname {
                    Some(name) => Some(name),
                    None => None,
                };
            }
            assert(config_key()(self.courses@[i as int]) != courseid);
            i = i + 1;
        }
        proof {
            lemma_first_with_key_bounds(self.courses@, config_key(), courseid);
        }
        None
    }
}

} // verus!
