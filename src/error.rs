//! The errors of composition and of dispatch.
use vstd::prelude::*;
use crate::path::path_view;

verus! {

/// A composition error, reported by `Router2::build`.
#[derive(Debug, PartialEq)]
pub enum Error {
    /// Two procedures were registered under this path.
    DuplicateProcedures(Vec<String>),
}

/// The path that a composition error names.
pub open spec fn error_path(e: Error) -> Seq<Seq<char>> {
    match e {
        Error::DuplicateProcedures(p) => path_view(&p),
    }
}

/// The paths that a sequence of composition errors names, in order.
pub open spec fn error_paths(es: Seq<Error>) -> Seq<Seq<Seq<char>>> {
    es.map_values(|e: Error| error_path(e))
}

/// A dispatch error, returned by the execution entry points.
#[derive(Debug, PartialEq)]
pub enum ExecError {
    /// No procedure of the requested kind is registered under this key.
    OperationNotFound(String),
    /// The procedure's outcome does not fit the entry point that was used.
    UnsupportedMethod(String),
    /// The handler failed; its message is passed on unchanged.
    Resolver(String),
}

/// A rendering error: the exporter refused a type, with its reason.
#[derive(Debug, PartialEq)]
pub enum ExportError {
    ExportFailure(String),
}

} // verus!
