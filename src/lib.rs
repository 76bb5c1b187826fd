//! Instrumentation of named local variables: a parser for the directive that
//! names them, and a rewriter that routes their declarations, assignments and
//! reads through an observer.
pub mod directive;
pub mod eval;
pub mod ident;
pub mod laws;
pub mod observer;
pub mod rewrite;
pub mod tree;

pub use directive::{ConfigError, RewriteDirective};
pub use observer::ObserverContext;
pub use rewrite::{decorate_vars, rewrite_body};
