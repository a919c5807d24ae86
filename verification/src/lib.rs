pub mod text;
pub mod hashing;
pub mod idmap;
pub mod model;
pub mod source;
pub mod syntax;
pub mod blocks;
pub mod scope;
pub mod extract;
pub mod snapshot;
pub mod known_issues;
pub mod scan;
pub mod engine;
pub mod laws;
pub mod layout;
pub mod changes;
pub mod rounds;
pub mod scopes;
pub mod cli;
