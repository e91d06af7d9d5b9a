//! The closed set of content types a leaf can carry, and the coarse merge
//! policy derived from it.

use crate::strutil::str_eq;
use vstd::prelude::*;

verus! {

/// Content type of a leaf, assigned from the name of the first-level category
/// folder it was found under inside a namespace.
#[derive(Debug, Clone, Copy, PartialEq, Eq, Structural)]
pub enum ScriptType {
    Advancement,
    Function,
    Predicate,
    LootTable,
    Recipe,
    Tag,
    Structure,
    Unknown,
}

/// Coarse merge policy of a leaf: `Tag` leaves concatenate their JSON value
/// lists, `Generic` leaves are overwritten by the incoming side.
#[derive(Debug, Clone, Copy, PartialEq, Eq, Structural)]
pub enum ScriptKind {
    Tag,
    Generic,
    Unassigned,
}

impl Default for ScriptKind {
    /// A node that was never classified carries no merge policy.
    fn default() -> (r: ScriptKind)
        ensures
            r == ScriptKind::Unassigned,
    {
        ScriptKind::Unassigned
    }
}

/// Text encoding a resource may use; directories carry none.
#[derive(Debug, Clone, Copy, PartialEq, Eq, Structural)]
pub enum EncodingFormat {
    Utf8,
    Utf16,
    Directory,
}

impl Default for EncodingFormat {
    fn default() -> (r: EncodingFormat)
        ensures
            r == EncodingFormat::Utf8,
    {
        EncodingFormat::Utf8
    }
}

impl ScriptType {
    /// The merge policy of this content type: only `Tag` leaves merge at the
    /// JSON level, every other type is overwritten wholesale.
    pub fn kind(self) -> (r: ScriptKind)
        ensures
            r == self.spec_kind(),
    {
        match self {
            ScriptType::Tag => ScriptKind::Tag,
            _ => ScriptKind::Generic,
        }
    }

    pub open spec fn spec_kind(self) -> ScriptKind {
        if self == ScriptType::Tag {
            ScriptKind::Tag
        } else {
            ScriptKind::Generic
        }
    }
}

/// The content type assigned to everything under a first-level category
/// folder of the given name.
pub open spec fn spec_classify(name: Seq<char>) -> ScriptType {
    if name == "advancements"@ {
        ScriptType::Advancement
    } else if name == "functions"@ {
        ScriptType::Function
    } else if name == "loot_tables"@ {
        ScriptType::LootTable
    } else if name == "predicates"@ {
        ScriptType::Predicate
    } else if name == "recipes"@ {
        ScriptType::Recipe
    } else if name == "structures"@ {
        ScriptType::Structure
    } else if name == "tags"@ {
        ScriptType::Tag
    } else {
        ScriptType::Unknown
    }
}

/// Classify a category folder by its name.
pub fn classify(name: &str) -> (r: ScriptType)
    ensures
        r == spec_classify(name@),
{
    if str_eq(name, "advancements") {
        ScriptType::Advancement
    } else if str_eq(name, "functions") {
        ScriptType::Function
    } else if str_eq(name, "loot_tables") {
        ScriptType::LootTable
    } else if str_eq(name, "predicates") {
        ScriptType::Predicate
    } else if str_eq(name, "recipes") {
        ScriptType::Recipe
    } else if str_eq(name, "structures") {
        ScriptType::Structure
    } else if str_eq(name, "tags") {
        ScriptType::Tag
    } else {
        ScriptType::Unknown
    }
}

} // verus!
