//! Static dependency analysis of JavaScript/TypeScript module trees: path
//! normalisation, alias matching, module resolution decisions, the dependency
//! tree builder, cycle detection, warnings and the tree listing.

pub mod text;
pub mod order;
pub mod path;
pub mod types;
pub mod alias;
pub mod resolver;
pub mod collector;
pub mod builder;
pub mod shorten;
pub mod jsonc;
pub mod cycles;
pub mod warnings;
pub mod pretty;
