//! Merge several "datapack" sources (directories, zip archives, tar+gzip
//! archives) into a single combined zip archive.
//!
//! The core of the crate is a recursive content tree (`ContentNode`) with a
//! generate / merge / compile pipeline: trees are built from raw directory
//! listings, merged pairwise with content-type-aware leaf policies, and
//! flattened back into an ordered list of archive entries.

pub mod compile;
pub mod errors;
pub mod kinds;
pub mod loader;
pub mod node;
pub mod pack;
pub mod resource;
pub mod strutil;
pub mod tag;
pub mod zipper;

pub use compile::ZipEntry;
pub use errors::GenerateError;
pub use errors::MergeError;
pub use errors::TreeError;
pub use errors::ZipperError;
pub use kinds::classify;
pub use kinds::EncodingFormat;
pub use kinds::ScriptKind;
pub use kinds::ScriptType;
pub use loader::DatapackLoader;
pub use node::ContentNode;
pub use node::MergeOutcome;
pub use node::NodeData;
pub use pack::Datapack;
pub use pack::Namespace;
pub use pack::RawData;
pub use pack::RawNode;
pub use resource::Resource;
pub use tag::Tag;
pub use zipper::ArchiveItem;
pub use zipper::CompressionChoice;
pub use zipper::CompressionFormat;
pub use zipper::ZipConfig;
pub use zipper::Zipper;
