//! A local development tool's verified core: it watches a directory
//! tree for delimited-text log files written by a rewriting engine's
//! instrumentation, gives each discovered file a stable numeric id, and
//! streams newly appended rows, in order and with a restart signal on
//! truncation, to tailing clients; one-shot snapshots of whole files are
//! served beside the stream.  The registry, the row format, the snapshot
//! reader and the tail watcher live here with their contracts; the
//! surrounding process does the I/O and hands them plain values.
use vstd::prelude::*;

pub mod decode;
pub mod paths;
pub mod registry;
pub mod recorders;
pub mod rows;
pub mod snapshot;
pub mod watcher;
pub mod webfiles;

verus! {

/// How a request over the library's data can fail: the id or file is
/// unknown (`NotFound`), or the content's head could not be decoded
/// (`DecodeError`).
#[derive(Clone, Copy, Debug, PartialEq, Eq, Structural)]
pub enum RequestError {
    NotFound,
    DecodeError,
}

/// Configuration consumed by the registry and the surrounding server:
/// the watched root, the path-suffix exclusion list, and the ports.
pub struct Args {
    /// directory to watch for changes in
    pub input: String,
    /// path suffixes to exclude from discovery
    pub exclude: Vec<String>,
    /// port to run the server on
    pub port: u16,
    /// port that a development front end runs on
    pub dev_port: u16,
    /// open a browser window when the server starts
    pub external: bool,
    /// don't open a browser window when the server starts
    pub quiet: bool,
}

} // verus!
