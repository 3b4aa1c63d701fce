//! Verified core of the Maxima package manager: documentation parsing,
//! help-index rendering, package search and test-output analysis.

pub mod config;
pub mod core_docs;
pub mod doc;
pub mod doc_index;
pub mod index;
pub mod init;
pub mod info_index;
pub mod info_scan;
pub mod install;
pub mod outdated;
pub mod publish;
pub mod registry;
pub mod source;
pub mod test_output;
pub mod text;
pub mod types;
