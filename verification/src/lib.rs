//! Citations in Markdown: finding the markers, grouping them into clusters,
//! and putting formatted citations and a bibliography in their place.
//!
//! A document is UTF-8 text, and every span is a range of byte offsets into
//! it. The contracts therefore speak of bytes: the grammar of the markers is
//! a function on `Seq<u8>`, and a string stands in a contract as its bytes.
//! The delimiters of the grammar are ASCII, so a span never cuts a character.
//!
//! - [`markdown`] finds the markers `[@key]`, `[@key, locator]` and
//!   `[@key](url)`; [`locator`] reads the locator text.
//! - [`cluster`] finds the groups `[@a; @b]` and joins neighbouring markers
//!   into clusters.
//! - [`output`] replaces spans by formatted text and assembles the document.
//! - [`processor`] says what to ask of a citation style for a set of
//!   citations, and reads its answer; [`refs`] brings reference data into the
//!   form of one JSON array; [`style`] holds the styles that are built in.
//! - [`text`], [`scan`] and [`whitespace`] are the ground the others stand
//!   on: substrings, trimming, lines and searching, and the proof that
//!   trimming bytes is trimming characters.
//! - [`json`] is the one place where code is trusted rather than proved:
//!   parsing JSON and quoting strings are serde_json's.

pub mod cluster;
pub mod json;
pub mod locator;
pub mod markdown;
pub mod output;
pub mod processor;
pub mod refs;
pub mod scan;
pub mod style;
pub mod text;
pub mod whitespace;

pub use cluster::{
    extract_citation_clusters, extract_pandoc_grouped_citations, CitationCluster, CitationItem,
};
pub use locator::parse_locator;
pub use markdown::{extract_citations, Citation};
pub use output::{generate_output, replace_citations};
pub use processor::{ProcessedCitation, ProcessorError};
pub use refs::{normalize_refs, validate_refs, RefsError};
pub use style::{builtin_style, builtin_style_names};
