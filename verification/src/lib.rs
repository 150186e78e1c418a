//! Normalizes web-frontend naming conventions: classifies base names as
//! PascalCase, camelCase, acronym runs, or kebab-case, converts them to
//! kebab-case, rewrites the path specifiers inside import/require statements,
//! and plans the renaming of a directory tree in an order that keeps the
//! recorded paths valid.

pub mod chars;
pub mod case;
pub mod rewrite;
pub mod tree;
pub mod driver;
