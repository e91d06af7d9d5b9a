//! Abstraction over where a datapack's files are: a source may already be a
//! directory, or an archive that a caller unpacked into a scratch place.

use crate::strutil::last_segment;
use crate::strutil::spec_last_segment;
use vstd::prelude::*;

verus! {

/// A datapack source normalized to a directory: the directory to walk, the
/// pack's display name, and whether the directory is scratch space that the
/// caller must remove afterwards.
#[derive(Debug, Clone, PartialEq, Eq)]
pub struct DatapackLoader {
    pub path: String,
    pub name: String,
    pub is_temp: bool,
}

impl DatapackLoader {
    /// Describe a normalized source. `extracted_to` names the scratch
    /// directory an archive source was unpacked into; a source that already
    /// was a directory passes `None` and is used in place. The pack's name
    /// is the origin path's last segment either way.
    pub fn new(origin: String, extracted_to: Option<String>) -> (r: DatapackLoader)
        ensures
            r.name@ == spec_last_segment(origin@),
            r.is_temp == extracted_to is Some,
            (match extracted_to {
                Some(t) => r.path@ == t@,
                None => r.path@ == origin@,
            }),
    {
        let name = last_segment(origin.as_str());
        match extracted_to {
            Some(t) => DatapackLoader { path: t, name, is_temp: true },
            None => DatapackLoader { path: origin, name, is_temp: false },
        }
    }
}

} // verus!
