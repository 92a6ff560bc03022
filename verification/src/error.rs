//! The errors of the library.
use vstd::prelude::*;

verus! {

/// Why building, opening or searching a dictionary failed.
#[derive(Debug)]
pub enum DictionaryError {
    /// Reading or writing a file failed.
    Io(std::io::Error),
    /// The transducer refused a key or its bytes.
    Fst(fst::Error),
    /// A key found by a search is not valid UTF-8.
    Utf8(std::string::FromUtf8Error),
}

} // verus!
