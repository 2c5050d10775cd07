use vstd::prelude::*;

verus! {

/// Why reading the configuration source failed: the path that was tried
/// and a description of the underlying failure.
#[derive(Debug)]
pub enum ConfReaderError {
    IoError(String, String),
}

/// A source of configuration text. The host program supplies a
/// filesystem-backed implementation; tests supply an in-memory one.
pub trait ConfReader {
    fn get_conf_string(&self) -> Result<String, ConfReaderError>;
}

} // verus!
