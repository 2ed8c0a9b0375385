use vstd::prelude::*;

mod ascii;
pub mod options;
pub mod safety;
pub mod text;
pub mod layout;
pub mod format;
pub mod layout_laws;
pub mod tokens;
pub mod tree;
pub mod spacing;
pub mod preflight;
pub mod positions;
pub mod documents;
pub mod worker_protocol;
pub mod worker;
pub mod formatting;
pub mod markup;
pub mod hover;
pub mod semantics;
pub mod diagnostics;
pub mod session;
pub mod signature_help;
pub mod query;
