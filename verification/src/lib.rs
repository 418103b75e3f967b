//! A module-specifier resolution engine for a web bundler: given the
//! specifier text of an import/export statement in the file currently being
//! processed, it computes the rewritten path the transformed output should
//! emit and a canonical, fully-qualified URL identifying the dependency.
pub mod convert;
pub mod import_map;
pub mod paths;
pub mod policy;
pub mod remote;
pub mod resolver;
pub mod text;
