//! Applies a named colorscheme (a YAML document of semantic color keys) onto a
//! block-style YAML configuration file, rewriting only the values whose nesting
//! path resolves to a scalar leaf of the colorscheme tree and copying every
//! other span of the source text verbatim.

use vstd::prelude::*;

pub mod color;
pub mod patch;
pub mod scan;
pub mod schemes;
pub mod text;

verus! {

/// The kinds of failure the library reports.
#[derive(Clone, Copy, Debug, PartialEq, Eq, Structural)]
pub enum Error {
    /// A file could not be read or written.
    Io,
    /// A text was not parsable YAML, or held no document.
    Parse,
    /// No colorscheme was available where one was required.
    NotFound,
    /// The operation was not built into this library.
    Unsupported,
}

/// The tmux reload hook. This build carries no tmux support, so the call
/// always fails with `Error::Unsupported` and touches nothing.
pub fn reload_tmux(_file: &str, _selector: &str, _colorscheme: &str) -> (r: Result<(), Error>)
    ensures
        r matches Err(e) && e == Error::Unsupported,
{
    Err(Error::Unsupported)
}

/// The delta reload hook. This build carries no delta support, so the call
/// always fails with `Error::Unsupported` and touches nothing.
pub fn reload_delta(_file: &str, _selector: &str, _colorscheme: &str) -> (r: Result<(), Error>)
    ensures
        r matches Err(e) && e == Error::Unsupported,
{
    Err(Error::Unsupported)
}

/// The cmus reload hook. This build carries no cmus support, so the call
/// always fails with `Error::Unsupported` and touches nothing.
pub fn reload_cmus(_selector: &str, _colorscheme: &str) -> (r: Result<(), Error>)
    ensures
        r matches Err(e) && e == Error::Unsupported,
{
    Err(Error::Unsupported)
}

} // verus!
