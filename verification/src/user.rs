//! The site and user description the remote source reports.
use vstd::prelude::*;

verus! {

/// One callable remote function.
pub struct Function {
    pub name: String,
    pub version: String,
}

/// One feature switch of the remote site.
pub struct AdvancedFeature {
    pub name: String,
    pub value: i64,
}

/// The remote site's description of itself and the calling user.
pub struct SiteInfo {
    pub sitename: String,
    pub username: String,
    pub firstname: String,
    pub lastname: String,
    pub fullname: String,
    pub userid: i64,
    pub siteurl: String,
    pub userpictureurl: String,
    pub functions: Vec<Function>,
    pub release: String,
    pub version: String,
    pub mobilecssurl: String,
    pub advancedfeatures: Vec<AdvancedFeature>,
}

} // verus!
