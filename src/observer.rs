//! The interface that rewritten code calls.
use vstd::prelude::*;

verus! {

/// An observer of instrumented variables. Rewritten code calls `register` on
/// each registered read, `request` on each requested read, and `propose` after
/// each proposed declaration or assignment; whatever a call returns is the
/// value that the code goes on with. The provided methods hand the value back
/// unchanged.
pub trait ObserverContext<'a> {
    /// Receives a registered variable as it is read, with its type's name.
    fn register<T>(&self, identifier: T, fn_name: &'a str, ident_name: &'a str, ident_type: &'a str) ->(r: T)
        where T: core::fmt::Display,
        default_ensures
            r == identifier,
    {
        identifier
    }

    /// Receives a proposed variable once it has been bound or assigned.
    fn propose<T>(&self, identifier: T, fn_name: &'a str, ident_name: &'a str) ->(r: T)
        where T: core::fmt::Display,
        default_ensures
            r == identifier,
    {
        identifier
    }

    /// Receives a requested variable as it is read; may return another value.
    fn request<T>(&self, identifier: T, fn_name: &str, ident_name: &str) ->(r: T)
        where T: core::fmt::Display + core::str::FromStr + Clone,
        default_ensures
            r == identifier,
    {
        identifier
    }
}

} // verus!
