//! A single named piece of pack content, addressed by its location relative
//! to the pack root.

use crate::strutil::copy_str;
use vstd::prelude::*;

verus! {

/// One resource: where it sits inside a pack, and its textual content.
#[derive(Debug, Clone, PartialEq, Eq)]
pub struct Resource {
    pub location: String,
    pub data: String,
}

impl Resource {
    /// A resource from content already in hand.
    pub fn from_data(data: &str, location: String) -> (r: Resource)
        ensures
            r.location == location,
            r.data@ == data@,
    {
        let data = copy_str(data);
        Resource { location, data }
    }
}

} // verus!
