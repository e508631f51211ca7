//! Verified core of a build tool for C and C++ packages.
pub mod assoc;
pub mod bench;
pub mod deps;
pub mod error;
pub mod features;
pub mod fmt;
pub mod init;
pub mod json;
pub mod language;
pub mod lint;
pub mod manifest;
pub mod modules;
pub mod order;
pub mod path;
pub mod project;
pub mod recipe;
pub mod report;
pub mod test;
pub mod text;
pub mod vendor;
