//! Builds a manifest of content identifiers found in an asset directory tree.
//!
//! Metadata sidecar files carry a `guid:` line holding a 32-character
//! lowercase-hexadecimal identifier. This library validates those
//! identifiers, extracts them from file contents, accumulates them under a
//! selectable collection policy (sorted and deduplicated, or in discovery
//! order with duplicates), and renders the final manifest text.

pub mod collect;
pub mod extract;
pub mod guid;
pub mod manifest;
pub mod pipeline;

pub use collect::Insert;
pub use collect::OrderedList;
pub use collect::SortedSet;
pub use extract::ExtractError;
pub use extract::extract_guid;
pub use guid::GUID;
pub use manifest::render_manifest;
pub use pipeline::collect_guids;
pub use pipeline::gather_guid;
